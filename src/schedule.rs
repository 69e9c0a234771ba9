//! Sets of repeating events keyed by id, and the open or closed state that they decide.
use std::collections::HashMap;
use vstd::prelude::*;
use crate::repeat::{RepeatInterval, RepeatingEvent, SearchError};

verus! {

/// `k` is the greatest id of `m`.
pub open spec fn is_max_id(m: Map<usize, RepeatingEvent>, k: usize) -> bool {
    m.contains_key(k) && forall|j: usize| #[trigger] m.contains_key(j) ==> j <= k
}

/// The id that the next event added to `m` receives: one more than the greatest id, or 0
/// when there is none.
pub open spec fn next_id(m: Map<usize, RepeatingEvent>) -> int {
    if exists|k: usize| is_max_id(m, k) {
        (choose|k: usize| is_max_id(m, k)) + 1
    } else {
        0
    }
}

/// `x` is the least time elapsed since an occurrence, over the events of `m`.
pub open spec fn is_least_elapsed(m: Map<usize, RepeatingEvent>, now: int, x: int) -> bool {
    &&& exists|id: usize| m.contains_key(id) && x == now - (#[trigger] m[id]).latest(now)
    &&& forall|id: usize| m.contains_key(id) ==> x <= now - (#[trigger] m[id]).latest(now)
}

/// The least time elapsed since an occurrence, over the events of `m`.
pub open spec fn least_elapsed(m: Map<usize, RepeatingEvent>, now: int) -> int {
    choose|x: int| is_least_elapsed(m, now, x)
}

/// `x` is the earliest occurrence after `now`, over the events of `m`.
pub open spec fn is_soonest(m: Map<usize, RepeatingEvent>, now: int, x: int) -> bool {
    &&& exists|id: usize| m.contains_key(id) && x == (#[trigger] m[id]).earliest_after(now)
    &&& forall|id: usize| m.contains_key(id) ==> x <= (#[trigger] m[id]).earliest_after(now)
}

/// Every event of `m` has a last occurrence at or before `now`.
pub open spec fn all_have_latest(m: Map<usize, RepeatingEvent>, now: int) -> bool {
    forall|id: usize| m.contains_key(id) ==> (#[trigger] m[id]).has_latest(now)
}

/// Every event of `m` has a fixed unit, and its last occurrence at or before `now` fits in
/// an `i64`: the search for the last occurrence cannot fail on such events.
pub open spec fn all_fixed_in_range(m: Map<usize, RepeatingEvent>, now: int) -> bool {
    forall|id: usize|
        m.contains_key(id) ==> (#[trigger] m[id]).repeating.t.is_fixed() && i64::MIN <= m[id].latest(
            now,
        )
}

/// The least elapsed time is a single value.
pub proof fn lemma_least_elapsed_unique(m: Map<usize, RepeatingEvent>, now: int, x: int)
    requires
        is_least_elapsed(m, now, x),
    ensures
        least_elapsed(m, now) == x,
{
    let y = least_elapsed(m, now);
    assert(is_least_elapsed(m, now, y));
    let a = choose|id: usize| m.contains_key(id) && x == now - (#[trigger] m[id]).latest(now);
    let b = choose|id: usize| m.contains_key(id) && y == now - (#[trigger] m[id]).latest(now);
    assert(y <= now - m[a].latest(now));
    assert(x <= now - m[b].latest(now));
}

/// Events keyed by their ids.
pub struct EventSet {
    events: HashMap<usize, RepeatingEvent>,
}

impl View for EventSet {
    type V = Map<usize, RepeatingEvent>;

    closed spec fn view(&self) -> Map<usize, RepeatingEvent> {
        self.events@
    }
}

impl EventSet {
    /// Each event is stored under its own id, and its interval is well formed.
    pub open spec fn wf(&self) -> bool {
        forall|id: usize|
            self@.contains_key(id) ==> (#[trigger] self@[id]).id == id && self@[id].wf()
    }

    /// Whether an event of the set has id `id`.
    pub open spec fn holds_id(&self, id: usize) -> bool {
        self@.contains_key(id)
    }

    pub fn new() -> (r: EventSet)
        ensures
            r@ == Map::<usize, RepeatingEvent>::empty(),
            r.wf(),
    {
        EventSet { events: HashMap::new() }
    }

    pub fn len(&self) -> (r: usize)
        ensures
            r == self@.len(),
    {
        self.events.len()
    }

    pub fn is_empty(&self) -> (r: bool)
        ensures
            r == (self@.len() == 0),
    {
        self.events.len() == 0
    }

    /// The greatest id in the set; `None` when it is empty.
    fn max_id(&self) -> (r: Option<usize>)
        ensures
            r is None <==> self@.len() == 0,
            r matches Some(k) ==> is_max_id(self@, k),
    {
        let ghost m = self@;
        let mut best: Option<usize> = None;
        for k in it: self.events.keys()
            invariant
                m == self@,
                it.seq().unref().to_set() == m.dom(),
                it.seq().len() == m.dom().len(),
                best is None <==> it.index() == 0,
                best matches Some(b) ==> m.contains_key(b),
                it.index() > 0 ==> forall|j: usize|
                    #[trigger] m.contains_key(j) ==> (best matches Some(b) && j <= b) || exists|i: int|
                        it.index() <= i < it.seq().len() && #[trigger] it.seq().unref()[i] == j,
        {
            proof {
                assert(m.dom().contains(*k)) by {
                    assert(it.seq().unref()[it.index() as int] == *k);
                    assert(it.seq().unref().to_set().contains(*k));
                }
                let nb: usize = match best {
                    Some(b) => if b < *k { *k } else { b },
                    None => *k,
                };
                assert forall|j: usize| #[trigger] m.contains_key(j) implies j <= nb || exists|i: int|
                    it.index() + 1 <= i < it.seq().len() && #[trigger] it.seq().unref()[i] == j by {
                    if it.index() == 0 {
                        assert(m.dom().contains(j));
                        assert(it.seq().unref().to_set().contains(j));
                        assert(it.seq().unref().contains(j));
                    }
                    if !(best matches Some(b) && j <= b) {
                        let i = choose|i: int|
                            it.index() <= i < it.seq().len() && #[trigger] it.seq().unref()[i] == j;
                        if i == it.index() {
                            assert(it.seq().unref()[i] == *k);
                        }
                    }
                }
            }
            best = match best {
                Some(b) => if b < *k { Some(*k) } else { Some(b) },
                None => Some(*k),
            };
        }
        proof {
            if m.len() == 0 {
                assert(best is None);
            }
        }
        best
    }

    /// Adds an event every `repeating` from `initial` under a new id: one more than the
    /// greatest id present, or 0 in an empty set. `None`, with the set unchanged, where the
    /// greatest id is already `usize::MAX`.
    pub fn insert(&mut self, initial: i64, repeating: RepeatInterval) -> (r: Option<usize>)
        requires
            old(self).wf(),
            repeating.wf(),
        ensures
            final(self).wf(),
            r is None <==> old(self)@.contains_key(usize::MAX),
            r is None ==> final(self)@ == old(self)@,
            r matches Some(id) ==> id == next_id(old(self)@) && !old(self)@.contains_key(id)
                && final(self)@ == old(self)@.insert(id, RepeatingEvent { id, initial, repeating }),
    {
        let id: usize = match self.max_id() {
            Some(k) => {
                proof {
                    let c = choose|c: usize| is_max_id(self@, c);
                    assert(c <= k && k <= c);
                }
                if k == usize::MAX {
                    return None;
                }
                k + 1
            },
            None => {
                proof {
                    assert(self@.dom().len() == 0);
                    assert forall|k: usize| !is_max_id(self@, k) by {
                        if self@.contains_key(k) {
                            assert(self@.dom().contains(k));
                        }
                    }
                    assert(!self@.contains_key(usize::MAX)) by {
                        if self@.contains_key(usize::MAX) {
                            assert(self@.dom().contains(usize::MAX));
                        }
                    }
                }
                0
            },
        };
        let ghost before = self@;
        self.events.insert(id, RepeatingEvent { id, initial, repeating });
        proof {
            assert forall|j: usize| #[trigger] self@.contains_key(j) implies self@[j].id == j
                && self@[j].wf() by {
                if j != id {
                    assert(before.contains_key(j));
                }
            }
        }
        Some(id)
    }

    /// Adds `event` under its own id; `false`, with the set unchanged, where that id is taken.
    pub fn add(&mut self, event: RepeatingEvent) -> (r: bool)
        requires
            old(self).wf(),
            event.wf(),
        ensures
            final(self).wf(),
            r == !old(self).holds_id(event.id),
            r ==> final(self)@ == old(self)@.insert(event.id, event),
            !r ==> final(self)@ == old(self)@,
    {
        if self.events.contains_key(&event.id) {
            return false;
        }
        let ghost before = self@;
        self.events.insert(event.id, event);
        proof {
            assert forall|j: usize| #[trigger] self@.contains_key(j) implies self@[j].id == j
                && self@[j].wf() by {
                if j != event.id {
                    assert(before.contains_key(j));
                }
            }
        }
        true
    }

    /// The event with id `id`, if there is one.
    pub fn get(&self, id: usize) -> (r: Option<&RepeatingEvent>)
        ensures
            r is None <==> !self.holds_id(id),
            r matches Some(e) ==> *e == self@[id],
    {
        self.events.get(&id)
    }

    /// Takes out and returns the event with id `id`; `None`, with the set unchanged, where no
    /// event has it. The other events keep their ids.
    pub fn remove(&mut self, id: usize) -> (r: Option<RepeatingEvent>)
        requires
            old(self).wf(),
        ensures
            final(self).wf(),
            r is None <==> !old(self).holds_id(id),
            r is None ==> final(self)@ == old(self)@,
            r matches Some(e) ==> e == old(self)@[id] && e.id == id,
            final(self)@ == old(self)@.remove(id),
    {
        let ghost before = self@;
        let r = self.events.remove(&id);
        proof {
            if r is None {
                assert(self@ =~= before);
            }
            assert forall|j: usize| #[trigger] self@.contains_key(j) implies self@[j].id == j
                && self@[j].wf() by {
                assert(before.contains_key(j));
            }
        }
        r
    }

    /// Least time elapsed since an occurrence, over the events of the set; `None` for an
    /// empty set.
    pub fn min_elapsed(&self, now: i64) -> (r: Result<Option<i64>, SearchError>)
        requires
            self.wf(),
        ensures
            self@.len() == 0 ==> r == Ok::<Option<i64>, SearchError>(None),
            r matches Ok(None) ==> self@.len() == 0,
            r matches Ok(Some(x)) ==> all_have_latest(self@, now as int) && is_least_elapsed(
                self@,
                now as int,
                x as int,
            ),
            all_fixed_in_range(self@, now as int) ==> r is Ok,
            r == Err::<Option<i64>, SearchError>(SearchError::StepLimit) ==> exists|id: usize|
                self@.contains_key(id) && (#[trigger] self@[id]).latest_far(now as int),
            r == Err::<Option<i64>, SearchError>(SearchError::OutOfRange) ==> exists|id: usize|
                self@.contains_key(id) && (#[trigger] self@[id]).latest_unreachable(now as int),
    {
        if self.events.len() == 0 {
            return Ok(None);
        }
        let ghost m = self@;
        let ghost n = now as int;
        let mut best: i64 = i64::MAX;
        for e in it: self.events.values()
            invariant
                m == self@,
                n == now,
                self.wf(),
                m.len() > 0,
                it.seq().unref().to_set() == m.values(),
                it.seq().len() == m.dom().len(),
                it.index() == 0 ==> best == i64::MAX,
                it.index() > 0 ==> exists|id: usize|
                    m.contains_key(id) && best == n - (#[trigger] m[id]).latest(n),
                it.index() > 0 ==> forall|id: usize|
                    #[trigger] m.contains_key(id) ==> (m[id].has_latest(n) && best <= n
                        - m[id].latest(n)) || exists|i: int|
                        it.index() <= i < it.seq().len() && #[trigger] it.seq().unref()[i] == m[id],
        {
            let ghost at = it.index() as int;
            let ghost key: usize;
            proof {
                assert(it.seq().unref()[at] == *e);
                assert(it.seq().unref().to_set().contains(*e));
                assert(m.values().contains(*e));
                key = choose|id: usize| m.contains_key(id) && #[trigger] m[id] == *e;
                assert(m[key].wf());
            }
            let x = match e.elapsed(now) {
                Ok(x) => x,
                Err(err) => {
                    return Err(err);
                },
            };
            let ghost old_best = best;
            if x < best {
                best = x;
            }
            proof {
                assert forall|id: usize| #[trigger] m.contains_key(id) implies (m[id].has_latest(n)
                    && best <= n - m[id].latest(n)) || exists|i: int|
                    at + 1 <= i < it.seq().len() && #[trigger] it.seq().unref()[i] == m[id] by {
                    if at == 0 {
                        assert(m.values().contains(m[id]));
                        assert(it.seq().unref().to_set().contains(m[id]));
                        assert(it.seq().unref().contains(m[id]));
                    }
                    if at == 0 || !(m[id].has_latest(n) && old_best <= n - m[id].latest(n)) {
                        let i = choose|i: int|
                            at <= i < it.seq().len() && #[trigger] it.seq().unref()[i] == m[id];
                        if i == at {
                            assert(m[id] == m[key]);
                        }
                    }
                }
                if at == 0 || best == x {
                    assert(m.contains_key(key) && best == n - m[key].latest(n));
                }
            }
        }
        Ok(Some(best))
    }
    /// Earliest occurrence after `now`, over the events of the set; `None` for an empty set.
    pub fn soonest_next(&self, now: i64) -> (r: Result<Option<i64>, SearchError>)
        requires
            self.wf(),
        ensures
            self@.len() == 0 ==> r == Ok::<Option<i64>, SearchError>(None),
            r matches Ok(None) ==> self@.len() == 0,
            r matches Ok(Some(x)) ==> all_have_latest(self@, now as int) && is_soonest(
                self@,
                now as int,
                x as int,
            ),
            r == Err::<Option<i64>, SearchError>(SearchError::StepLimit) ==> exists|id: usize|
                self@.contains_key(id) && (#[trigger] self@[id]).next_far(now as int),
            r == Err::<Option<i64>, SearchError>(SearchError::OutOfRange) ==> exists|id: usize|
                self@.contains_key(id) && (#[trigger] self@[id]).next_unreachable(now as int),
    {
        if self.events.len() == 0 {
            return Ok(None);
        }
        let ghost m = self@;
        let ghost n = now as int;
        let mut best: i64 = i64::MAX;
        for e in it: self.events.values()
            invariant
                m == self@,
                n == now,
                self.wf(),
                m.len() > 0,
                it.seq().unref().to_set() == m.values(),
                it.seq().len() == m.dom().len(),
                it.index() == 0 ==> best == i64::MAX,
                it.index() > 0 ==> exists|id: usize|
                    m.contains_key(id) && best == (#[trigger] m[id]).earliest_after(n),
                it.index() > 0 ==> forall|id: usize|
                    #[trigger] m.contains_key(id) ==> (m[id].has_latest(n) && best
                        <= m[id].earliest_after(n)) || exists|i: int|
                        it.index() <= i < it.seq().len() && #[trigger] it.seq().unref()[i] == m[id],
        {
            let ghost at = it.index() as int;
            let ghost key: usize;
            proof {
                assert(it.seq().unref()[at] == *e);
                assert(it.seq().unref().to_set().contains(*e));
                assert(m.values().contains(*e));
                key = choose|id: usize| m.contains_key(id) && #[trigger] m[id] == *e;
                assert(m[key].wf());
            }
            let x = match e.next(now) {
                Ok(x) => x,
                Err(err) => {
                    return Err(err);
                },
            };
            let ghost old_best = best;
            if x < best {
                best = x;
            }
            proof {
                assert forall|id: usize| #[trigger] m.contains_key(id) implies (m[id].has_latest(n)
                    && best <= m[id].earliest_after(n)) || exists|i: int|
                    at + 1 <= i < it.seq().len() && #[trigger] it.seq().unref()[i] == m[id] by {
                    if at == 0 {
                        assert(m.values().contains(m[id]));
                        assert(it.seq().unref().to_set().contains(m[id]));
                        assert(it.seq().unref().contains(m[id]));
                    }
                    if at == 0 || !(m[id].has_latest(n) && old_best <= m[id].earliest_after(n)) {
                        let i = choose|i: int|
                            at <= i < it.seq().len() && #[trigger] it.seq().unref()[i] == m[id];
                        if i == at {
                            assert(m[id] == m[key]);
                        }
                    }
                }
                if at == 0 || best == x {
                    assert(m.contains_key(key) && best == m[key].earliest_after(n));
                }
            }
        }
        Ok(Some(best))
    }

    /// The events of the set, each once, in no particular order.
    pub fn events(&self) -> (r: Vec<RepeatingEvent>)
        ensures
            r@.len() == self@.len(),
            forall|i: int| 0 <= i < r@.len() ==> self@.values().contains(#[trigger] r@[i]),
            forall|id: usize| #[trigger] self@.contains_key(id) ==> r@.contains(self@[id]),
    {
        let ghost m = self@;
        let mut out: Vec<RepeatingEvent> = Vec::new();
        for e in it: self.events.values()
            invariant
                m == self@,
                it.seq().unref().to_set() == m.values(),
                it.seq().len() == m.dom().len(),
                out@.len() == it.index(),
                forall|i: int| 0 <= i < out@.len() ==> m.values().contains(#[trigger] out@[i]),
                it.index() > 0 ==> forall|id: usize|
                    #[trigger] m.contains_key(id) ==> out@.contains(m[id]) || exists|i: int|
                        it.index() <= i < it.seq().len() && #[trigger] it.seq().unref()[i] == m[id],
        {
            let ghost at = it.index() as int;
            let ghost before = out@;
            proof {
                assert(it.seq().unref()[at] == *e);
                assert(it.seq().unref().to_set().contains(*e));
            }
            out.push(*e);
            proof {
                assert(out@[at] == *e);
                assert forall|id: usize| #[trigger] m.contains_key(id) implies out@.contains(m[id])
                    || exists|i: int|
                    at + 1 <= i < it.seq().len() && #[trigger] it.seq().unref()[i] == m[id] by {
                    if at == 0 {
                        assert(m.values().contains(m[id]));
                        assert(it.seq().unref().to_set().contains(m[id]));
                        assert(it.seq().unref().contains(m[id]));
                    }
                    if at > 0 && before.contains(m[id]) {
                        let j = choose|j: int| 0 <= j < before.len() && before[j] == m[id];
                        assert(out@[j] == m[id]);
                    } else {
                        let i = choose|i: int|
                            at <= i < it.seq().len() && #[trigger] it.seq().unref()[i] == m[id];
                        if i == at {
                            assert(out@[at] == m[id]);
                        }
                    }
                }
            }
        }
        proof {
            if m.len() == 0 {
                assert forall|id: usize| #[trigger] m.contains_key(id) implies false by {
                    assert(m.dom().contains(id));
                }
            }
        }
        out
    }
}

/// Manual setting of the state: follow the events, or force it open or closed.
#[derive(Clone, Copy, Debug, PartialEq, Eq, Structural)]
pub enum ClosedStatus {
    Automatic,
    Open,
    Closed,
}

/// The manual setting and the two sets of events that decide whether it is closed.
pub struct ClosedData {
    pub is_closed: ClosedStatus,
    pub close_events: EventSet,
    pub open_events: EventSet,
}

impl Default for ClosedData {
    fn default() -> (r: ClosedData)
        ensures
            r.is_closed == ClosedStatus::Automatic,
            r.close_events@ == Map::<usize, RepeatingEvent>::empty(),
            r.open_events@ == Map::<usize, RepeatingEvent>::empty(),
            r.wf(),
    {
        ClosedData {
            is_closed: ClosedStatus::Automatic,
            close_events: EventSet::new(),
            open_events: EventSet::new(),
        }
    }
}

impl ClosedData {
    pub open spec fn wf(&self) -> bool {
        self.close_events.wf() && self.open_events.wf()
    }

    /// Closed when forced closed; open when forced open. Otherwise closed exactly when both
    /// sets hold events and a close event happened more recently than every open event.
    pub open spec fn closed_at(&self, now: int) -> bool {
        match self.is_closed {
            ClosedStatus::Open => false,
            ClosedStatus::Closed => true,
            ClosedStatus::Automatic => self.close_events@.len() > 0 && self.open_events@.len() > 0
                && least_elapsed(self.close_events@, now) < least_elapsed(self.open_events@, now),
        }
    }

    /// Whether it is closed at `now`.
    pub fn is_currently_closed(&self, now: i64) -> (r: Result<bool, SearchError>)
        requires
            self.wf(),
        ensures
            r matches Ok(b) ==> b == self.closed_at(now as int),
            self.is_closed != ClosedStatus::Automatic ==> r is Ok,
            self.close_events@.len() == 0 || self.open_events@.len() == 0 ==> r is Ok,
            r matches Ok(b) && self.is_closed == ClosedStatus::Automatic && self.close_events@.len()
                > 0 && self.open_events@.len() > 0 ==> all_have_latest(self.close_events@, now as int)
                && all_have_latest(self.open_events@, now as int),
            all_fixed_in_range(self.close_events@, now as int) && all_fixed_in_range(
                self.open_events@,
                now as int,
            ) ==> r is Ok,
            r == Err::<bool, SearchError>(SearchError::StepLimit) ==> (exists|id: usize|
                self.close_events@.contains_key(id) && (
                #[trigger] self.close_events@[id]).latest_far(now as int)) || (exists|id: usize|
                self.open_events@.contains_key(id) && (
                #[trigger] self.open_events@[id]).latest_far(now as int)),
            r == Err::<bool, SearchError>(SearchError::OutOfRange) ==> (exists|id: usize|
                self.close_events@.contains_key(id) && (
                #[trigger] self.close_events@[id]).latest_unreachable(now as int)) || (exists|
                id: usize|
                self.open_events@.contains_key(id) && (
                #[trigger] self.open_events@[id]).latest_unreachable(now as int)),
    {
        match self.is_closed {
            ClosedStatus::Open => {
                return Ok(false);
            },
            ClosedStatus::Closed => {
                return Ok(true);
            },
            ClosedStatus::Automatic => {},
        }
        if self.close_events.is_empty() || self.open_events.is_empty() {
            return Ok(false);
        }
        let close_elapsed = match self.close_events.min_elapsed(now) {
            Ok(Some(x)) => x,
            Ok(None) => i64::MAX,
            Err(e) => {
                return Err(e);
            },
        };
        let open_elapsed = match self.open_events.min_elapsed(now) {
            Ok(Some(x)) => x,
            Ok(None) => i64::MAX,
            Err(e) => {
                return Err(e);
            },
        };
        proof {
            lemma_least_elapsed_unique(self.close_events@, now as int, close_elapsed as int);
            lemma_least_elapsed_unique(self.open_events@, now as int, open_elapsed as int);
        }
        Ok(close_elapsed < open_elapsed)
    }
}

/// Under the automatic setting, an empty set of close events leaves it open, whatever the
/// open events are.
pub proof fn lemma_no_close_events_is_open(d: ClosedData, now: int)
    requires
        d.is_closed == ClosedStatus::Automatic,
        d.close_events@.len() == 0,
    ensures
        !d.closed_at(now),
{
}

/// A manual setting decides alone, whatever the events are.
pub proof fn lemma_manual_setting_decides(d: ClosedData, now: int)
    requires
        d.is_closed != ClosedStatus::Automatic,
    ensures
        d.closed_at(now) == (d.is_closed == ClosedStatus::Closed),
{
}

/// Under the automatic setting, equal times since the last close and open events leave it
/// open.
pub proof fn lemma_tie_is_open(d: ClosedData, now: int)
    requires
        d.is_closed == ClosedStatus::Automatic,
        least_elapsed(d.close_events@, now) == least_elapsed(d.open_events@, now),
    ensures
        !d.closed_at(now),
{
}

} // verus!
