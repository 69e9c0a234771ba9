//! Whitelists kept as lines of text: one user id per line, or for registrations one
//! `account=user id` record per line.
use vstd::prelude::*;
use vstd::string::{StrSliceExecFns, StringExecFns};

verus! {

/// The text of each line.
pub open spec fn texts(lines: Seq<String>) -> Seq<Seq<char>> {
    lines.map_values(|l: String| l@)
}

/// Whether some line is exactly `id`.
pub open spec fn holds(lines: Seq<String>, id: Seq<char>) -> bool {
    exists|i: int| 0 <= i < lines.len() && (#[trigger] lines[i])@ == id
}

/// Whether `id` is one of the lines.
pub fn contains_id(lines: &Vec<String>, id: &String) -> (r: bool)
    ensures
        r == holds(lines@, id@),
{
    let mut i: usize = 0;
    while i < lines.len()
        invariant
            0 <= i <= lines@.len(),
            forall|j: int| 0 <= j < i ==> (#[trigger] lines@[j])@ != id@,
        decreases lines@.len() - i,
    {
        if lines[i] == *id {
            return true;
        }
        i = i + 1;
    }
    false
}

/// Appends `id` unless it is already a line; `false`, with the lines unchanged, where it is.
pub fn add_id(lines: &mut Vec<String>, id: String) -> (r: bool)
    ensures
        r == !holds(old(lines)@, id@),
        r ==> final(lines)@ == old(lines)@.push(id),
        !r ==> final(lines)@ == old(lines)@,
{
    if contains_id(lines, &id) {
        return false;
    }
    lines.push(id);
    true
}

/// Removes the first line that is exactly `id`; `false`, with the lines unchanged, where no
/// line is.
pub fn remove_id(lines: &mut Vec<String>, id: &String) -> (r: bool)
    ensures
        r == holds(old(lines)@, id@),
        !r ==> final(lines)@ == old(lines)@,
        r ==> exists|i: int|
            0 <= i < old(lines)@.len() && (#[trigger] old(lines)@[i])@ == id@ && (forall|j: int|
                0 <= j < i ==> (#[trigger] old(lines)@[j])@ != id@) && final(lines)@ == old(
                lines,
            )@.remove(i),
{
    let mut i: usize = 0;
    while i < lines.len()
        invariant
            0 <= i <= lines@.len(),
            lines@ == old(lines)@,
            forall|j: int| 0 <= j < i ==> (#[trigger] lines@[j])@ != id@,
        decreases lines@.len() - i,
    {
        if lines[i] == *id {
            lines.remove(i);
            return true;
        }
        i = i + 1;
    }
    false
}

/// Index of the first `c` in `s` at or after `from`; the length of `s` where there is none.
pub open spec fn index_of(s: Seq<char>, c: char, from: int) -> int
    decreases s.len() - from,
{
    if from >= s.len() {
        s.len() as int
    } else if s[from] == c {
        from
    } else {
        index_of(s, c, from + 1)
    }
}

proof fn lemma_index_of_bounds(s: Seq<char>, c: char, from: int)
    requires
        0 <= from,
    ensures
        from <= index_of(s, c, from) <= s.len() || (from > s.len() && index_of(s, c, from)
            == s.len()),
    decreases s.len() - from,
{
    if from < s.len() && s[from] != c {
        lemma_index_of_bounds(s, c, from + 1);
    }
}

fn find_char(s: &str, c: char, from: usize) -> (r: usize)
    requires
        from <= s@.len(),
    ensures
        r == index_of(s@, c, from as int),
{
    let len = s.unicode_len();
    let mut i = from;
    while i < len
        invariant
            from <= i <= len,
            len == s@.len(),
            index_of(s@, c, from as int) == index_of(s@, c, i as int),
        decreases len - i,
    {
        if s.get_char(i) == c {
            return i;
        }
        i = i + 1;
    }
    i
}

/// The user id of a registration record: the text between its first `=` and the next one,
/// or the end. `None` for a line without `=`.
pub open spec fn registered_id_of(line: Seq<char>) -> Option<Seq<char>> {
    let p = index_of(line, '=', 0);
    if p >= line.len() {
        None
    } else {
        Some(line.subrange(p + 1, index_of(line, '=', p + 1)))
    }
}

/// The user id of a registration record, if the line is one.
pub fn registered_id(line: &str) -> (r: Option<String>)
    ensures
        r is Some <==> registered_id_of(line@) is Some,
        r matches Some(id) ==> registered_id_of(line@) == Some(id@),
{
    let len = line.unicode_len();
    let p = find_char(line, '=', 0);
    proof {
        lemma_index_of_bounds(line@, '=', 0);
    }
    if p >= len {
        return None;
    }
    let q = find_char(line, '=', p + 1);
    proof {
        lemma_index_of_bounds(line@, '=', p + 1);
    }
    Some(String::from_str(line.substring_char(p + 1, q)))
}

/// User ids of all registration records, in the order of the lines.
pub open spec fn registered_ids_of(lines: Seq<Seq<char>>) -> Seq<Seq<char>>
    decreases lines.len(),
{
    if lines.len() == 0 {
        Seq::empty()
    } else {
        let rest = registered_ids_of(lines.drop_last());
        match registered_id_of(lines.last()) {
            Some(id) => rest.push(id),
            None => rest,
        }
    }
}

/// User ids of all registration records, in the order of the lines.
pub fn registered_ids(lines: &Vec<String>) -> (r: Vec<String>)
    ensures
        texts(r@) == registered_ids_of(texts(lines@)),
{
    let mut out: Vec<String> = Vec::new();
    let mut i: usize = 0;
    while i < lines.len()
        invariant
            0 <= i <= lines@.len(),
            texts(out@) == registered_ids_of(texts(lines@.take(i as int))),
        decreases lines@.len() - i,
    {
        assert(texts(lines@.take(i + 1)).drop_last() =~= texts(lines@.take(i as int)));
        assert(texts(lines@.take(i + 1)).last() == lines@[i as int]@);
        match registered_id(lines[i].as_str()) {
            Some(id) => {
                out.push(id);
                assert(texts(out@) =~= registered_ids_of(texts(lines@.take(i as int))).push(
                    out@.last()@,
                ));
            },
            None => {},
        }
        i = i + 1;
    }
    assert(lines@.take(i as int) =~= lines@);
    out
}

/// Whether `s` begins with `prefix`.
pub open spec fn starts_with(s: Seq<char>, prefix: Seq<char>) -> bool {
    prefix.len() <= s.len() && s.subrange(0, prefix.len() as int) == prefix
}

/// The registration record of `account` for user id `id`.
pub open spec fn record(account: Seq<char>, id: Seq<char>) -> Seq<char> {
    account + seq!['='] + id
}

fn begins_with(s: &str, prefix: &str) -> (r: bool)
    ensures
        r == starts_with(s@, prefix@),
{
    let n = prefix.unicode_len();
    if n > s.unicode_len() {
        return false;
    }
    let mut i: usize = 0;
    while i < n
        invariant
            0 <= i <= n,
            n == prefix@.len(),
            n <= s@.len(),
            forall|j: int| 0 <= j < i ==> s@[j] == prefix@[j],
        decreases n - i,
    {
        if s.get_char(i) != prefix.get_char(i) {
            assert(s@.subrange(0, n as int)[i as int] != prefix@[i as int]);
            return false;
        }
        i = i + 1;
    }
    assert(s@.subrange(0, n as int) =~= prefix@);
    true
}

/// Records `account` as registered under `id`: every line that begins with `account`
/// becomes its record; where none does, the record is appended. `true` where a line was
/// changed, `false` where the record was appended.
pub fn register(lines: &mut Vec<String>, account: &str, id: &str) -> (r: bool)
    ensures
        r == exists|i: int|
            0 <= i < old(lines)@.len() && starts_with((#[trigger] old(lines)@[i])@, account@),
        r ==> final(lines)@.len() == old(lines)@.len() && forall|i: int|
            0 <= i < old(lines)@.len() ==> (#[trigger] final(lines)@[i])@ == (if starts_with(
                old(lines)@[i]@,
                account@,
            ) {
                record(account@, id@)
            } else {
                old(lines)@[i]@
            }),
        !r ==> texts(final(lines)@) == texts(old(lines)@).push(record(account@, id@)),
{
    let mut rec = String::from_str(account);
    rec.append("=");
    rec.append(id);
    proof {
        reveal_strlit("=");
    }
    assert(rec@ =~= record(account@, id@));
    let mut found = false;
    let mut i: usize = 0;
    while i < lines.len()
        invariant
            0 <= i <= lines@.len(),
            lines@.len() == old(lines)@.len(),
            rec@ == record(account@, id@),
            found == exists|j: int| 0 <= j < i && starts_with((#[trigger] old(lines)@[j])@, account@),
            forall|j: int|
                0 <= j < i ==> (#[trigger] lines@[j])@ == (if starts_with(old(lines)@[j]@, account@) {
                    record(account@, id@)
                } else {
                    old(lines)@[j]@
                }),
            forall|j: int| i <= j < lines@.len() ==> #[trigger] lines@[j] == old(lines)@[j],
        decreases lines@.len() - i,
    {
        if begins_with(lines[i].as_str(), account) {
            lines[i] = rec.clone();
            found = true;
        }
        i = i + 1;
    }
    if !found {
        let ghost before = lines@;
        assert(texts(before) =~= texts(old(lines)@));
        lines.push(rec);
        assert(texts(lines@) =~= texts(before).push(record(account@, id@)));
    }
    found
}

/// The open whitelist: the administrators' ids, then the ids of the registration records.
pub fn open_whitelist(admins: &Vec<String>, registrations: &Vec<String>) -> (r: Vec<String>)
    ensures
        texts(r@) == texts(admins@) + registered_ids_of(texts(registrations@)),
{
    let mut out = admins.clone();
    let mut ids = registered_ids(registrations);
    let ghost first = out@;
    let ghost second = ids@;
    out.append(&mut ids);
    assert(out@ =~= first + second);
    assert(texts(first + second) =~= texts(first) + texts(second));
    proof {
        assert forall|i: int| 0 <= i < admins@.len() implies #[trigger] texts(first)[i] == texts(
            admins@,
        )[i] by {}
        assert(texts(first) =~= texts(admins@));
    }
    out
}

} // verus!
