//! Settings kept beside the events.
use vstd::prelude::*;

verus! {

/// Data shared by every command invocation; it holds nothing.
pub struct Data {}

/// The channel that commands answer in, and the roles that may administer.
pub struct GeneralData {
    pub channel_id: Option<u64>,
    pub admin_roles: Option<Vec<u64>>,
}

impl Default for GeneralData {
    fn default() -> (r: GeneralData)
        ensures
            r.channel_id is None,
            r.admin_roles is None,
    {
        GeneralData { channel_id: None, admin_roles: None }
    }
}

impl GeneralData {
    /// The administrator roles; none where the list was never set.
    pub open spec fn roles(&self) -> Seq<u64> {
        match self.admin_roles {
            Some(v) => v@,
            None => Seq::empty(),
        }
    }

    fn position_of(&self, role: u64) -> (r: Option<usize>)
        ensures
            r is None <==> !self.roles().contains(role),
            r matches Some(i) ==> i < self.roles().len() && self.roles()[i as int] == role && (
            forall|j: int| 0 <= j < i ==> self.roles()[j] != role),
    {
        match &self.admin_roles {
            Some(v) => {
                let mut i: usize = 0;
                while i < v.len()
                    invariant
                        0 <= i <= v@.len(),
                        v@ == self.roles(),
                        forall|j: int| 0 <= j < i ==> v@[j] != role,
                    decreases v@.len() - i,
                {
                    if v[i] == role {
                        return Some(i);
                    }
                    i = i + 1;
                }
                None
            },
            None => None,
        }
    }

    /// Adds `role` to the administrator roles; `false`, with nothing changed, where it is
    /// one already.
    pub fn add_admin_role(&mut self, role: u64) -> (r: bool)
        ensures
            r == !old(self).roles().contains(role),
            r ==> final(self).admin_roles is Some && final(self).roles() == old(self).roles().push(
                role,
            ),
            !r ==> final(self).roles() == old(self).roles(),
            final(self).channel_id == old(self).channel_id,
    {
        if self.position_of(role).is_some() {
            return false;
        }
        match &mut self.admin_roles {
            Some(v) => {
                v.push(role);
            },
            None => {
                self.admin_roles = Some(vec![role]);
                assert(self.roles() =~= old(self).roles().push(role));
            },
        }
        true
    }

    /// Removes `role` from the administrator roles; `false`, with nothing changed, where it
    /// is not one.
    pub fn remove_admin_role(&mut self, role: u64) -> (r: bool)
        ensures
            r == old(self).roles().contains(role),
            r ==> exists|i: int|
                0 <= i < old(self).roles().len() && old(self).roles()[i] == role && (forall|j: int|
                    0 <= j < i ==> old(self).roles()[j] != role) && final(self).roles() == old(
                    self,
                ).roles().remove(i),
            !r ==> final(self).roles() == old(self).roles(),
            final(self).channel_id == old(self).channel_id,
    {
        match self.position_of(role) {
            Some(i) => {
                match &mut self.admin_roles {
                    Some(v) => {
                        v.remove(i);
                    },
                    None => {},
                }
                true
            },
            None => false,
        }
    }
}

} // verus!
