//! Repeating events: an anchor instant and a step, and the occurrences they define.
use vstd::prelude::*;
use vstd::string::StringExecFns;
use vstd::arithmetic::div_mod::{lemma_fundamental_div_mod, lemma_fundamental_div_mod_converse};
use crate::calendar::{
    CivilTime, civil_from_timestamp, timestamp_from_civil, shift_months, shifted_epoch,
    shift_in_range, lemma_shift_order, lemma_epoch_injective, lemma_shift_near_linear,
    MEAN_MONTH_SECONDS,
};

verus! {

/// Most steps that a calendar search takes from its estimate before it gives up.
pub const SEARCH_STEP_LIMIT: u32 = 1024;

/// The unit in which a repeat is counted.
#[derive(Clone, Copy, Debug, PartialEq, Eq, Structural)]
pub enum RepeatType {
    Seconds,
    Minutes,
    Hours,
    Days,
    Weeks,
    Months,
    Years,
}

impl RepeatType {
    /// Units of a fixed length in seconds; months and years follow the calendar.
    pub open spec fn is_fixed(self) -> bool {
        !(self is Months || self is Years)
    }

    /// Exact length of a fixed unit; for months and years, their average length.
    pub open spec fn unit_seconds(self) -> int {
        match self {
            RepeatType::Seconds => 1,
            RepeatType::Minutes => 60,
            RepeatType::Hours => 3600,
            RepeatType::Days => 86400,
            RepeatType::Weeks => 604800,
            RepeatType::Months => 2628288,
            RepeatType::Years => 31556952,
        }
    }

    /// Lower-case name of the unit, plural where `plural` holds.
    pub open spec fn display_name(self, plural: bool) -> Seq<char> {
        match self {
            RepeatType::Seconds => if plural { "seconds"@ } else { "second"@ },
            RepeatType::Minutes => if plural { "minutes"@ } else { "minute"@ },
            RepeatType::Hours => if plural { "hours"@ } else { "hour"@ },
            RepeatType::Days => if plural { "days"@ } else { "day"@ },
            RepeatType::Weeks => if plural { "weeks"@ } else { "week"@ },
            RepeatType::Months => if plural { "months"@ } else { "month"@ },
            RepeatType::Years => if plural { "years"@ } else { "year"@ },
        }
    }

    /// Name of the unit for a count of `n`: singular for one or less, plural above.
    pub fn with_plurality(&self, n: i64) -> (r: String)
        ensures
            r@ == self.display_name(n > 1),
    {
        let plural = n > 1;
        let name = match self {
            RepeatType::Seconds => if plural { "seconds" } else { "second" },
            RepeatType::Minutes => if plural { "minutes" } else { "minute" },
            RepeatType::Hours => if plural { "hours" } else { "hour" },
            RepeatType::Days => if plural { "days" } else { "day" },
            RepeatType::Weeks => if plural { "weeks" } else { "week" },
            RepeatType::Months => if plural { "months" } else { "month" },
            RepeatType::Years => if plural { "years" } else { "year" },
        };
        String::from_str(name)
    }
}

/// A step of `n` units of type `t`.
#[derive(Clone, Copy, Debug, PartialEq, Eq, Structural)]
pub struct RepeatInterval {
    pub t: RepeatType,
    pub n: i64,
}

impl RepeatInterval {
    /// A positive count whose length in seconds fits in an `i64`.
    pub open spec fn wf(self) -> bool {
        1 <= self.n && self.n * self.t.unit_seconds() <= i64::MAX
    }

    /// Length of one step in seconds: exact for fixed units, an average otherwise.
    pub open spec fn step_seconds(self) -> int {
        self.n * self.t.unit_seconds()
    }

    /// Length of one step in months, for calendar units.
    pub open spec fn step_months(self) -> int {
        if self.t is Years { 12 * self.n } else { self.n as int }
    }

    /// The interval of `n` units of type `t`; `None` for a count below one, or one too long
    /// to measure in seconds.
    pub fn new(t: RepeatType, n: i64) -> (r: Option<RepeatInterval>)
        ensures
            r is Some <==> (RepeatInterval { t, n }).wf(),
            r matches Some(i) ==> i.t == t && i.n == n,
    {
        if n < 1 {
            return None;
        }
        let unit: i64 = unit_seconds(t);
        if n > i64::MAX / unit {
            proof {
                lemma_fundamental_div_mod(i64::MAX as int, unit as int);
                assert(n * unit > i64::MAX) by (nonlinear_arith)
                    requires
                        n >= i64::MAX / unit + 1,
                        unit > 0,
                        i64::MAX == unit * (i64::MAX / unit) + i64::MAX % unit,
                        i64::MAX % unit < unit,
                ;
            }
            return None;
        }
        proof {
            lemma_fundamental_div_mod(i64::MAX as int, unit as int);
            assert(n * unit <= i64::MAX) by (nonlinear_arith)
                requires
                    n <= i64::MAX / unit,
                    unit > 0,
                    i64::MAX == unit * (i64::MAX / unit) + i64::MAX % unit,
                    0 <= i64::MAX % unit,
            ;
        }
        Some(RepeatInterval { t, n })
    }
}

fn unit_seconds(t: RepeatType) -> (r: i64)
    ensures
        r == t.unit_seconds(),
{
    match t {
        RepeatType::Seconds => 1,
        RepeatType::Minutes => 60,
        RepeatType::Hours => 3600,
        RepeatType::Days => 86400,
        RepeatType::Weeks => 604800,
        RepeatType::Months => 2628288,
        RepeatType::Years => 31556952,
    }
}

/// Length of one step of `interval` in seconds: exact for fixed units, the average month
/// or year otherwise.
pub fn average_seconds(interval: RepeatInterval) -> (r: i64)
    requires
        interval.wf(),
    ensures
        r == interval.step_seconds(),
        r >= 1,
{
    let unit = unit_seconds(interval.t);
    proof {
        assert(interval.n * unit >= 1) by (nonlinear_arith)
            requires
                interval.n >= 1,
                unit >= 1,
        ;
    }
    unit * interval.n
}

/// One repeating event: occurrence `k` lies `k` steps after `initial`, for every integer `k`.
#[derive(Clone, Copy, Debug, PartialEq, Eq, Structural)]
pub struct RepeatingEvent {
    pub id: usize,
    /// Unix timestamp of occurrence zero.
    pub initial: i64,
    pub repeating: RepeatInterval,
}

/// Why a search for an occurrence gave no answer.
#[derive(Clone, Copy, Debug, PartialEq, Eq, Structural)]
pub enum SearchError {
    /// An occurrence that the answer depends on lies outside the representable instants.
    OutOfRange,
    /// The search walked `SEARCH_STEP_LIMIT` steps from its estimate without an answer.
    StepLimit,
}

impl RepeatingEvent {
    pub open spec fn wf(self) -> bool {
        self.repeating.wf()
    }

    /// Whether the anchor has a calendar reading within the years that chrono represents.
    pub open spec fn anchored(self) -> bool {
        exists|c: CivilTime| #[trigger] c.wf() && c.epoch() == self.initial
    }

    /// The calendar reading of the anchor.
    pub open spec fn anchor_civil(self) -> CivilTime {
        choose|c: CivilTime| #[trigger] c.wf() && c.epoch() == self.initial
    }

    /// Whether occurrence `k` exists: always for fixed units; for calendar units, where the
    /// anchor and the target date lie within the years that chrono represents.
    pub open spec fn has_occurrence(self, k: int) -> bool {
        self.repeating.t.is_fixed() || (self.anchored() && shift_in_range(
            self.anchor_civil(),
            self.repeating.step_months() * k,
        ))
    }

    /// The instant of occurrence `k`.
    pub open spec fn occurrence(self, k: int) -> int {
        if self.repeating.t.is_fixed() {
            self.initial + self.repeating.step_seconds() * k
        } else {
            shifted_epoch(self.anchor_civil(), self.repeating.step_months() * k)
        }
    }

    /// Occurrence `k` is at or before `now`, and occurrence `k + 1` after it.
    pub open spec fn brackets(self, k: int, now: int) -> bool {
        &&& self.has_occurrence(k)
        &&& self.has_occurrence(k + 1)
        &&& self.occurrence(k) <= now < self.occurrence(k + 1)
    }

    pub open spec fn has_latest(self, now: int) -> bool {
        exists|k: int| self.brackets(k, now)
    }

    /// Index of the last occurrence at or before `now`.
    pub open spec fn latest_index(self, now: int) -> int {
        choose|k: int| self.brackets(k, now)
    }

    /// The last occurrence at or before `now`.
    pub open spec fn latest(self, now: int) -> int {
        self.occurrence(self.latest_index(now))
    }

    /// The first occurrence after `now`.
    pub open spec fn earliest_after(self, now: int) -> int {
        self.occurrence(self.latest_index(now) + 1)
    }

    /// Index of the last occurrence at or before `now`, for a fixed unit.
    pub open spec fn fixed_latest_index(self, now: int) -> int {
        (now - self.initial) / self.repeating.step_seconds()
    }

    /// Occurrence `k` of the event; `None` where it does not exist or does not fit in an `i64`.
    pub fn nth(&self, k: i64) -> (r: Option<i64>)
        requires
            self.wf(),
        ensures
            r is Some <==> self.has_occurrence(k as int) && i64::MIN <= self.occurrence(k as int)
                <= i64::MAX,
            r matches Some(t) ==> t == self.occurrence(k as int),
            !self.repeating.t.is_fixed() ==> (r is Some <==> self.has_occurrence(k as int)),
    {
        let t = self.repeating.t;
        if !(t == RepeatType::Months || t == RepeatType::Years) {
            let step: i64 = average_seconds(self.repeating);
            proof {
                assert(-0x4000_0000_0000_0000_0000_0000_0000_0000 <= step * k
                    <= 0x4000_0000_0000_0000_0000_0000_0000_0000) by (nonlinear_arith)
                    requires
                        1 <= step <= i64::MAX,
                        i64::MIN <= k <= i64::MAX,
                ;
            }
            let prod: i128 = step as i128 * k as i128;
            let wide: i128 = self.initial as i128 + prod;
            if wide < i64::MIN as i128 || wide > i64::MAX as i128 {
                return None;
            }
            return Some(wide as i64);
        }
        let anchor = match civil_from_timestamp(self.initial) {
            Some(c) => c,
            None => {
                return None;
            },
        };
        proof {
            self.lemma_anchor_civil(anchor);
        }
        let per_step: i64 = if t == RepeatType::Years {
            12 * self.repeating.n
        } else {
            self.repeating.n
        };
        let months = match per_step.checked_mul(k) {
            Some(m) => m,
            None => {
                proof {
                    self.lemma_far_shift_out_of_range(k as int);
                }
                return None;
            },
        };
        match shift_months(&anchor, months) {
            Some(target) => {
                proof {
                    self.lemma_calendar_occurrence_bounded(k as int);
                }
                timestamp_from_civil(&target)
            },
            None => None,
        }
    }

    /// For a fixed unit the step is exact, so dividing the distance from the anchor by it
    /// finds the last occurrence at or before `now`.
    pub proof fn lemma_fixed_latest(self, now: int)
        requires
            self.wf(),
            self.repeating.t.is_fixed(),
        ensures
            self.brackets(self.fixed_latest_index(now), now),
            self.has_latest(now),
            self.latest_index(now) == self.fixed_latest_index(now),
            now - self.latest(now) < self.repeating.step_seconds(),
    {
        let step = self.repeating.step_seconds();
        let q = self.fixed_latest_index(now);
        lemma_fundamental_div_mod(now - self.initial, step);
        assert(step * (q + 1) == step * q + step) by (nonlinear_arith);
        assert(self.brackets(q, now));
        let k = self.latest_index(now);
        self.lemma_bracket_unique(k, q, now);
    }

    /// Index from which a calendar search starts: the distance from the anchor divided by the
    /// average step, rounded down.
    fn estimate_index(&self, now: i64) -> (r: i64)
        requires
            self.wf(),
            !self.repeating.t.is_fixed(),
        ensures
            r == (now - self.initial) / self.repeating.step_seconds(),
            -0x1000_0000_0000 <= r <= 0x1000_0000_0000,
    {
        let avg = average_seconds(self.repeating);
        let diff: i128 = now as i128 - self.initial as i128;
        let q = floor_div(diff, avg as i128);
        proof {
            lemma_fundamental_div_mod(diff as int, avg as int);
            assert(avg >= 2628288) by (nonlinear_arith)
                requires
                    avg == self.repeating.n * self.repeating.t.unit_seconds(),
                    self.repeating.n >= 1,
                    self.repeating.t.unit_seconds() >= 2628288,
            ;
            assert(-0x1000_0000_0000 <= q <= 0x1000_0000_0000) by (nonlinear_arith)
                requires
                    diff == avg * q + (diff as int) % (avg as int),
                    0 <= (diff as int) % (avg as int) < avg,
                    avg >= 2628288,
                    -0x1_0000_0000_0000_0000 <= diff <= 0x1_0000_0000_0000_0000,
            ;
        }
        q as i64
    }

    /// Occurrences `lo + 1` to `hi` all exist and lie after `now`.
    pub open spec fn all_after_in(self, lo: int, hi: int, now: int) -> bool {
        forall|j: int| lo < j <= hi ==> #[trigger] self.has_occurrence(j) && self.occurrence(j) > now
    }

    /// Occurrences `lo` to `hi - 1` all exist and lie at or before `now`.
    pub open spec fn all_at_or_before_in(self, lo: int, hi: int, now: int) -> bool {
        forall|j: int| lo <= j < hi ==> #[trigger] self.has_occurrence(j) && self.occurrence(j) <= now
    }

    /// Index at which a search starts: the distance from the anchor divided by the average
    /// step, rounded down.
    pub open spec fn search_start(self, now: int) -> int {
        (now - self.initial) / self.repeating.step_seconds()
    }

    /// The search for the last occurrence at or before `now` may give up here: the unit is a
    /// calendar one, and the answer lies more than `SEARCH_STEP_LIMIT` steps from where the
    /// search starts.
    pub open spec fn latest_far(self, now: int) -> bool {
        !self.repeating.t.is_fixed() && (self.has_latest(now) ==> (self.latest_index(now)
            < self.search_start(now) - 1 - SEARCH_STEP_LIMIT || self.latest_index(now)
            > self.search_start(now) - 1 + SEARCH_STEP_LIMIT))
    }

    /// The search for the last occurrence at or before `now` may find no answer here: for a
    /// fixed unit, the answer lies below `i64::MIN`; for a calendar unit, an occurrence within
    /// the search's reach does not exist.
    pub open spec fn latest_unreachable(self, now: int) -> bool {
        if self.repeating.t.is_fixed() {
            self.latest(now) < i64::MIN
        } else {
            exists|j: int|
                self.search_start(now) - 1 - SEARCH_STEP_LIMIT <= j <= self.search_start(now)
                    + SEARCH_STEP_LIMIT && !#[trigger] self.has_occurrence(j)
        }
    }

    /// The search for the first occurrence after `now` may give up here.
    pub open spec fn next_far(self, now: int) -> bool {
        !self.repeating.t.is_fixed() && (self.has_latest(now) ==> (self.latest_index(now) + 1
            < self.search_start(now) + 1 - SEARCH_STEP_LIMIT || self.latest_index(now) + 1
            > self.search_start(now) + 1 + SEARCH_STEP_LIMIT))
    }

    /// The search for the first occurrence after `now` may find no answer here: for a fixed
    /// unit, the answer lies above `i64::MAX`; for a calendar unit, an occurrence within the
    /// search's reach does not exist.
    pub open spec fn next_unreachable(self, now: int) -> bool {
        if self.repeating.t.is_fixed() {
            self.earliest_after(now) > i64::MAX
        } else {
            exists|j: int|
                self.search_start(now) - SEARCH_STEP_LIMIT <= j <= self.search_start(now) + 1
                    + SEARCH_STEP_LIMIT && !#[trigger] self.has_occurrence(j)
        }
    }

    /// The last occurrence at or before `now`.
    ///
    /// Fixed units give it exactly. Calendar units start one step before `search_start` and
    /// walk, at most `SEARCH_STEP_LIMIT` steps in all: the search gives up only where the
    /// answer lies further away, and finds no answer only where an occurrence within that
    /// reach does not exist. Yearly steps, and monthly steps within 1800000 steps of the
    /// anchor, are always in reach (`lemma_yearly_search_in_reach`,
    /// `lemma_monthly_search_in_reach`).
    pub fn most_recent(&self, now: i64) -> (r: Result<i64, SearchError>)
        requires
            self.wf(),
        ensures
            r matches Ok(t) ==> self.has_latest(now as int) && t == self.latest(now as int),
            self.repeating.t.is_fixed() ==> self.has_latest(now as int) && (r is Ok <==> i64::MIN
                <= self.latest(now as int)),
            r == Err::<i64, SearchError>(SearchError::StepLimit) ==> self.latest_far(now as int),
            r == Err::<i64, SearchError>(SearchError::OutOfRange) ==> self.latest_unreachable(
                now as int,
            ),
    {
        let t = self.repeating.t;
        if !(t == RepeatType::Months || t == RepeatType::Years) {
            let step = average_seconds(self.repeating);
            let diff: i128 = now as i128 - self.initial as i128;
            let q = floor_div(diff, step as i128);
            proof {
                self.lemma_fixed_latest(now as int);
                lemma_fundamental_div_mod(diff as int, step as int);
                assert(diff - step < step * q <= diff) by (nonlinear_arith)
                    requires
                        diff == step * q + (diff as int) % (step as int),
                        0 <= (diff as int) % (step as int) < step,
                ;
            }
            let latest: i128 = self.initial as i128 + step as i128 * q;
            if latest < i64::MIN as i128 {
                return Err(SearchError::OutOfRange);
            }
            return Ok(latest as i64);
        }
        let seed = self.estimate_index(now);
        let ghost i0: int = seed - 1;
        let ghost n: int = now as int;
        let mut i: i64 = seed - 1;
        let mut steps: u32 = 0;
        let mut cur: i64 = 0;
        loop
            invariant_except_break
                self.all_after_in(i as int, i0, n),
            invariant
                self.wf(),
                !self.repeating.t.is_fixed(),
                -0x1000_0000_0000 <= seed <= 0x1000_0000_0000,
                seed == self.search_start(n),
                i0 == seed - 1,
                n == now,
                steps <= SEARCH_STEP_LIMIT,
                i == i0 - steps,
            ensures
                steps <= SEARCH_STEP_LIMIT,
                i == i0 - steps,
                self.has_occurrence(i as int),
                cur == self.occurrence(i as int),
                cur <= now,
                self.all_after_in(i as int, i0, n),
            decreases SEARCH_STEP_LIMIT - steps,
        {
            match self.nth(i) {
                Some(at) => {
                    if at <= now {
                        cur = at;
                        break ;
                    }
                },
                None => {
                    assert(!self.has_occurrence(i as int));
                    return Err(SearchError::OutOfRange);
                },
            }
            if steps >= SEARCH_STEP_LIMIT {
                proof {
                    if self.has_latest(n) {
                        let k = self.latest_index(n);
                        assert(self.brackets(k, n));
                        if k >= i && k <= i0 {
                            assert(self.has_occurrence(k));
                        } else if k > i0 {
                            assert(self.has_occurrence(i0));
                            self.lemma_occurrence_increasing(i0, k);
                        }
                    }
                }
                return Err(SearchError::StepLimit);
            }
            i = i - 1;
            steps = steps + 1;
        }
        loop
            invariant
                self.wf(),
                !self.repeating.t.is_fixed(),
                -0x1000_0000_0000 <= seed <= 0x1000_0000_0000,
                seed == self.search_start(n),
                i0 == seed - 1,
                n == now,
                steps <= SEARCH_STEP_LIMIT,
                i0 - SEARCH_STEP_LIMIT <= i <= i0 + steps,
                i >= i0 ==> steps == i - i0,
                self.has_occurrence(i as int),
                cur == self.occurrence(i as int),
                cur <= now,
                self.all_after_in(i as int, i0, n),
            ensures
                self.brackets(i as int, now as int),
                cur == self.occurrence(i as int),
            decreases SEARCH_STEP_LIMIT - steps,
        {
            match self.nth(i + 1) {
                Some(at) => {
                    if at > now {
                        break ;
                    }
                    assert(i + 1 > i0) by {
                        if i + 1 <= i0 {
                            assert(self.has_occurrence(i + 1));
                        }
                    }
                    if steps >= SEARCH_STEP_LIMIT {
                        proof {
                            if self.has_latest(n) {
                                let k = self.latest_index(n);
                                assert(self.brackets(k, n));
                                if k + 1 < i + 1 {
                                    self.lemma_occurrence_increasing(k + 1, i + 1);
                                }
                            }
                        }
                        return Err(SearchError::StepLimit);
                    }
                    i = i + 1;
                    cur = at;
                    steps = steps + 1;
                },
                None => {
                    assert(!self.has_occurrence(i + 1));
                    return Err(SearchError::OutOfRange);
                },
            }
        }
        proof {
            let k = self.latest_index(now as int);
            self.lemma_bracket_unique(k, i as int, now as int);
        }
        Ok(cur)
    }

    /// The first occurrence after `now`.
    ///
    /// Fixed units give it exactly. Calendar units start one step after `search_start` and
    /// walk, at most `SEARCH_STEP_LIMIT` steps in all, with the same guarantees as
    /// `most_recent`.
    pub fn next(&self, now: i64) -> (r: Result<i64, SearchError>)
        requires
            self.wf(),
        ensures
            r matches Ok(t) ==> self.has_latest(now as int) && t == self.earliest_after(now as int),
            self.repeating.t.is_fixed() ==> self.has_latest(now as int) && (r is Ok <==> self.earliest_after(now as int)
                <= i64::MAX),
            r == Err::<i64, SearchError>(SearchError::StepLimit) ==> self.next_far(now as int),
            r == Err::<i64, SearchError>(SearchError::OutOfRange) ==> self.next_unreachable(
                now as int,
            ),
    {
        let t = self.repeating.t;
        if !(t == RepeatType::Months || t == RepeatType::Years) {
            let step = average_seconds(self.repeating);
            let diff: i128 = now as i128 - self.initial as i128;
            let q = floor_div(diff, step as i128);
            proof {
                self.lemma_fixed_latest(now as int);
                lemma_fundamental_div_mod(diff as int, step as int);
                assert(step * (q + 1) == step * q + step) by (nonlinear_arith);
                assert(diff - step < step * q <= diff) by (nonlinear_arith)
                    requires
                        diff == step * q + (diff as int) % (step as int),
                        0 <= (diff as int) % (step as int) < step,
                ;
            }
            let after: i128 = self.initial as i128 + step as i128 * q + step as i128;
            if after > i64::MAX as i128 {
                return Err(SearchError::OutOfRange);
            }
            return Ok(after as i64);
        }
        let seed = self.estimate_index(now);
        let ghost i0: int = seed + 1;
        let ghost n: int = now as int;
        let mut i: i64 = seed + 1;
        let mut steps: u32 = 0;
        let mut cur: i64 = 0;
        loop
            invariant_except_break
                self.all_at_or_before_in(i0, i as int, n),
            invariant
                self.wf(),
                !self.repeating.t.is_fixed(),
                -0x1000_0000_0000 <= seed <= 0x1000_0000_0000,
                seed == self.search_start(n),
                i0 == seed + 1,
                n == now,
                steps <= SEARCH_STEP_LIMIT,
                i == i0 + steps,
            ensures
                steps <= SEARCH_STEP_LIMIT,
                i == i0 + steps,
                self.has_occurrence(i as int),
                cur == self.occurrence(i as int),
                cur > now,
                self.all_at_or_before_in(i0, i as int, n),
            decreases SEARCH_STEP_LIMIT - steps,
        {
            match self.nth(i) {
                Some(at) => {
                    if at > now {
                        cur = at;
                        break ;
                    }
                },
                None => {
                    assert(!self.has_occurrence(i as int));
                    return Err(SearchError::OutOfRange);
                },
            }
            if steps >= SEARCH_STEP_LIMIT {
                proof {
                    if self.has_latest(n) {
                        let k = self.latest_index(n);
                        assert(self.brackets(k, n));
                        if k + 1 >= i0 && k + 1 <= i {
                            assert(self.has_occurrence(k + 1));
                        } else if k + 1 < i0 {
                            assert(self.has_occurrence(i0));
                            self.lemma_occurrence_increasing(k + 1, i0);
                        }
                    }
                }
                return Err(SearchError::StepLimit);
            }
            i = i + 1;
            steps = steps + 1;
        }
        loop
            invariant
                self.wf(),
                !self.repeating.t.is_fixed(),
                -0x1000_0000_0000 <= seed <= 0x1000_0000_0000,
                seed == self.search_start(n),
                i0 == seed + 1,
                n == now,
                steps <= SEARCH_STEP_LIMIT,
                i0 - steps <= i <= i0 + SEARCH_STEP_LIMIT,
                i <= i0 ==> steps == i0 - i,
                self.has_occurrence(i as int),
                cur == self.occurrence(i as int),
                cur > now,
                self.all_at_or_before_in(i0, i as int, n),
            ensures
                self.brackets(i - 1, now as int),
                cur == self.occurrence(i as int),
            decreases SEARCH_STEP_LIMIT - steps,
        {
            match self.nth(i - 1) {
                Some(at) => {
                    if at <= now {
                        break ;
                    }
                    assert(i - 1 < i0) by {
                        if i - 1 >= i0 {
                            assert(self.has_occurrence(i - 1));
                        }
                    }
                    if steps >= SEARCH_STEP_LIMIT {
                        proof {
                            if self.has_latest(n) {
                                let k = self.latest_index(n);
                                assert(self.brackets(k, n));
                                if k > i - 1 {
                                    self.lemma_occurrence_increasing(i - 1, k);
                                }
                            }
                        }
                        return Err(SearchError::StepLimit);
                    }
                    i = i - 1;
                    cur = at;
                    steps = steps + 1;
                },
                None => {
                    assert(!self.has_occurrence(i - 1));
                    return Err(SearchError::OutOfRange);
                },
            }
        }
        proof {
            let k = self.latest_index(now as int);
            self.lemma_bracket_unique(k, i - 1, now as int);
        }
        Ok(cur)
    }

    /// Seconds from the last occurrence at or before `now` to `now`; it fails where
    /// `most_recent` does.
    pub fn elapsed(&self, now: i64) -> (r: Result<i64, SearchError>)
        requires
            self.wf(),
        ensures
            r matches Ok(x) ==> self.has_latest(now as int) && x == now - self.latest(now as int),
            self.repeating.t.is_fixed() ==> self.has_latest(now as int) && (r is Ok <==> i64::MIN
                <= self.latest(now as int)),
            r == Err::<i64, SearchError>(SearchError::StepLimit) ==> self.latest_far(now as int),
            r == Err::<i64, SearchError>(SearchError::OutOfRange) ==> self.latest_unreachable(
                now as int,
            ),
    {
        match self.most_recent(now) {
            Ok(t) => {
                proof {
                    let k = self.latest_index(now as int);
                    assert(self.brackets(k, now as int));
                    if self.repeating.t.is_fixed() {
                        self.lemma_fixed_latest(now as int);
                    } else {
                        self.lemma_calendar_occurrence_bounded(k);
                        self.lemma_calendar_occurrence_bounded(k + 1);
                    }
                }
                Ok(now - t)
            },
            Err(e) => Err(e),
        }
    }

    /// Calendar occurrences that exist lie well within an `i64`.
    pub proof fn lemma_calendar_occurrence_bounded(self, k: int)
        requires
            self.wf(),
            !self.repeating.t.is_fixed(),
            self.has_occurrence(k),
        ensures
            -0x4_0000_0000_0000 < self.occurrence(k) < 0x4_0000_0000_0000,
    {
        let c = self.anchor_civil();
        let m = self.repeating.step_months() * k;
        assert(c.wf() && c.epoch() == self.initial);
        crate::calendar::lemma_shift_valid(c, m);
        crate::calendar::lemma_epoch_bounded(
            crate::calendar::shifted_year(c, m),
            crate::calendar::shifted_month(c, m),
            crate::calendar::shifted_day(c, m),
            c.secs as int,
        );
    }

    /// Calendar occurrences advance by one mean month per month of step, give or take 712152
    /// seconds.
    pub proof fn lemma_calendar_occurrence_near_linear(self, k: int)
        requires
            self.wf(),
            !self.repeating.t.is_fixed(),
            self.anchored(),
        ensures
            -712152 <= self.occurrence(k) - self.initial - MEAN_MONTH_SECONDS * (
            self.repeating.step_months() * k) <= 712152,
    {
        let c = self.anchor_civil();
        assert(c.wf() && c.epoch() == self.initial);
        lemma_shift_near_linear(c, self.repeating.step_months() * k);
    }

    /// Both searches start from a step of the same estimate; where that estimate is within
    /// `bound` steps of the answer on either side, neither search gives up.
    proof fn lemma_in_reach_from_estimate(self, now: int)
        requires
            self.wf(),
            self.has_latest(now),
            self.latest_index(now) - SEARCH_STEP_LIMIT + 1 <= self.search_start(now)
                <= self.latest_index(now) + SEARCH_STEP_LIMIT,
        ensures
            !self.latest_far(now),
            !self.next_far(now),
    {
    }

    /// The anchor's calendar reading, once one is known, is the one that the model picks.
    pub proof fn lemma_anchor_civil(self, c: CivilTime)
        requires
            c.wf(),
            c.epoch() == self.initial,
        ensures
            self.anchored(),
            self.anchor_civil() == c,
    {
        assert(c.wf() && c.epoch() == self.initial);
        let a = self.anchor_civil();
        lemma_epoch_injective(
            a.year as int, a.month as int, a.day as int, a.secs as int,
            c.year as int, c.month as int, c.day as int, c.secs as int,
        );
    }

    /// A shift by more months than an `i64` holds leaves chrono's years.
    proof fn lemma_far_shift_out_of_range(self, k: int)
        requires
            self.wf(),
            self.anchored(),
            !self.repeating.t.is_fixed(),
            !(i64::MIN <= self.repeating.step_months() * k <= i64::MAX),
        ensures
            !shift_in_range(self.anchor_civil(), self.repeating.step_months() * k),
    {
        let c = self.anchor_civil();
        let target = crate::calendar::month_index(c.year as int, c.month as int)
            + self.repeating.step_months() * k;
        lemma_fundamental_div_mod(target, 12);
    }

    /// Strictly later occurrences for larger indices.
    pub proof fn lemma_occurrence_increasing(self, i: int, j: int)
        requires
            self.wf(),
            self.has_occurrence(i),
            self.has_occurrence(j),
            i < j,
        ensures
            self.occurrence(i) < self.occurrence(j),
    {
        let step = self.repeating.step_seconds();
        if self.repeating.t.is_fixed() {
            assert(step * i < step * j) by (nonlinear_arith)
                requires
                    step >= 1,
                    i < j,
            ;
        } else {
            let sm = self.repeating.step_months();
            let c = self.anchor_civil();
            assert(c.wf() && c.epoch() == self.initial);
            assert(sm * i < sm * j) by (nonlinear_arith)
                requires
                    sm >= 1,
                    i < j,
            ;
            lemma_shift_order(c, sm * i, sm * j);
        }
    }

    /// At most one index brackets a given instant.
    pub proof fn lemma_bracket_unique(self, i: int, j: int, now: int)
        requires
            self.wf(),
            self.brackets(i, now),
            self.brackets(j, now),
        ensures
            i == j,
    {
        if i < j {
            self.lemma_occurrence_increasing(i + 1, j);
        } else if j < i {
            self.lemma_occurrence_increasing(j + 1, i);
        }
    }
}

/// For a fixed unit, consecutive occurrences lie one step apart: the unit's length in seconds
/// times the count.
pub proof fn lemma_fixed_spacing(e: RepeatingEvent, k: int)
    requires
        e.wf(),
        e.repeating.t.is_fixed(),
    ensures
        e.occurrence(k + 1) - e.occurrence(k) == e.repeating.t.unit_seconds() * e.repeating.n,
{
    let step = e.repeating.step_seconds();
    assert(step * (k + 1) == step * k + step) by (nonlinear_arith);
    assert(e.repeating.n * e.repeating.t.unit_seconds() == e.repeating.t.unit_seconds()
        * e.repeating.n) by (nonlinear_arith);
}

/// The last occurrence at or before an instant is at or before it, and the first occurrence
/// after it is after it; the two are consecutive occurrences.
pub proof fn lemma_latest_and_next_bracket(e: RepeatingEvent, now: int)
    requires
        e.wf(),
        e.has_latest(now),
    ensures
        e.latest(now) <= now < e.earliest_after(now),
        exists|k: int| #[trigger] e.occurrence(k) == e.latest(now) && e.occurrence(k + 1) == e.earliest_after(now),
{
    let k = e.latest_index(now);
    assert(e.brackets(k, now));
    assert(e.occurrence(k) == e.latest(now) && e.occurrence(k + 1) == e.earliest_after(now));
}

/// The time elapsed since the last occurrence is never negative, and it is zero exactly
/// when the instant is itself an occurrence.
pub proof fn lemma_elapsed_zero_iff_occurrence(e: RepeatingEvent, now: int)
    requires
        e.wf(),
        e.has_latest(now),
    ensures
        now - e.latest(now) >= 0,
        now - e.latest(now) == 0 <==> exists|k: int| e.has_occurrence(k) && #[trigger] e.occurrence(k) == now,
{
    let j = e.latest_index(now);
    assert(e.brackets(j, now));
    if exists|k: int| e.has_occurrence(k) && e.occurrence(k) == now {
        let k = choose|k: int| e.has_occurrence(k) && e.occurrence(k) == now;
        if k > j + 1 {
            e.lemma_occurrence_increasing(j + 1, k);
        } else if k < j {
            e.lemma_occurrence_increasing(k, j);
        }
        assert(k == j);
    }
    if now - e.latest(now) == 0 {
        assert(e.has_occurrence(j) && e.occurrence(j) == now);
    }
}

/// A step as a single value: the unit is the variant, the count its payload.
#[derive(Clone, Copy, Debug, PartialEq, Eq, Structural)]
pub enum RepeatingDate {
    Seconds(i64),
    Minutes(i64),
    Hours(i64),
    Days(i64),
    Weeks(i64),
    Months(i64),
    Years(i64),
}

impl RepeatingDate {
    pub open spec fn unit(self) -> RepeatType {
        match self {
            RepeatingDate::Seconds(_) => RepeatType::Seconds,
            RepeatingDate::Minutes(_) => RepeatType::Minutes,
            RepeatingDate::Hours(_) => RepeatType::Hours,
            RepeatingDate::Days(_) => RepeatType::Days,
            RepeatingDate::Weeks(_) => RepeatType::Weeks,
            RepeatingDate::Months(_) => RepeatType::Months,
            RepeatingDate::Years(_) => RepeatType::Years,
        }
    }

    pub open spec fn count(self) -> i64 {
        match self {
            RepeatingDate::Seconds(x) => x,
            RepeatingDate::Minutes(x) => x,
            RepeatingDate::Hours(x) => x,
            RepeatingDate::Days(x) => x,
            RepeatingDate::Weeks(x) => x,
            RepeatingDate::Months(x) => x,
            RepeatingDate::Years(x) => x,
        }
    }

    /// The variant of unit `t` with count `num`.
    pub fn from_input(t: RepeatType, num: i64) -> (r: RepeatingDate)
        ensures
            r.unit() == t,
            r.count() == num,
    {
        match t {
            RepeatType::Seconds => RepeatingDate::Seconds(num),
            RepeatType::Minutes => RepeatingDate::Minutes(num),
            RepeatType::Hours => RepeatingDate::Hours(num),
            RepeatType::Days => RepeatingDate::Days(num),
            RepeatType::Weeks => RepeatingDate::Weeks(num),
            RepeatType::Months => RepeatingDate::Months(num),
            RepeatType::Years => RepeatingDate::Years(num),
        }
    }

    /// The unit and the count.
    pub fn decompose(&self) -> (r: (RepeatType, i64))
        ensures
            r.0 == self.unit(),
            r.1 == self.count(),
    {
        match self {
            RepeatingDate::Seconds(num) => (RepeatType::Seconds, *num),
            RepeatingDate::Minutes(num) => (RepeatType::Minutes, *num),
            RepeatingDate::Hours(num) => (RepeatType::Hours, *num),
            RepeatingDate::Days(num) => (RepeatType::Days, *num),
            RepeatingDate::Weeks(num) => (RepeatType::Weeks, *num),
            RepeatingDate::Months(num) => (RepeatType::Months, *num),
            RepeatingDate::Years(num) => (RepeatType::Years, *num),
        }
    }
}

/// Any index that brackets an instant gives the same last occurrence, so every successful
/// search at that instant returns the same value.
pub proof fn lemma_latest_unique(e: RepeatingEvent, k: int, now: int)
    requires
        e.wf(),
        e.brackets(k, now),
    ensures
        e.has_latest(now),
        e.latest_index(now) == k,
        e.occurrence(k) == e.latest(now),
        e.occurrence(k + 1) == e.earliest_after(now),
{
    let j = e.latest_index(now);
    e.lemma_bracket_unique(j, k, now);
}

/// A yearly step is measured by the mean Gregorian year, so a search for either neighbour
/// of an instant starts within a step of the answer and never gives up.
pub proof fn lemma_yearly_search_in_reach(e: RepeatingEvent, now: int)
    requires
        e.wf(),
        e.repeating.t == RepeatType::Years,
        e.has_latest(now),
    ensures
        !e.latest_far(now),
        !e.next_far(now),
{
    let k = e.latest_index(now);
    assert(e.brackets(k, now));
    e.lemma_calendar_occurrence_near_linear(k);
    e.lemma_calendar_occurrence_near_linear(k + 1);
    let n = e.repeating.n as int;
    let d = e.repeating.step_seconds();
    let x = now - e.initial;
    let q = e.search_start(now);
    assert(d == MEAN_MONTH_SECONDS * (12 * n)) by (nonlinear_arith)
        requires
            d == n * 31556952,
    ;
    assert(MEAN_MONTH_SECONDS * (12 * n * (k + 1)) == d * k + d) by (nonlinear_arith)
        requires
            d == MEAN_MONTH_SECONDS * (12 * n),
    ;
    assert(MEAN_MONTH_SECONDS * (12 * n * k) == d * k) by (nonlinear_arith)
        requires
            d == MEAN_MONTH_SECONDS * (12 * n),
    ;
    lemma_fundamental_div_mod(x, d);
    assert(k - 1 <= q <= k + 1) by (nonlinear_arith)
        requires
            d >= 31556952,
            d * k - 712152 <= x < d * k + d + 712152,
            x == d * q + x % d,
            0 <= x % d < d,
    ;
    e.lemma_in_reach_from_estimate(now);
}

/// A monthly step is estimated by a slightly short average month, so the estimate drifts
/// by about one step in 1800; within 1800000 steps of the anchor it stays in reach, and
/// neither search gives up.
pub proof fn lemma_monthly_search_in_reach(e: RepeatingEvent, now: int)
    requires
        e.wf(),
        e.repeating.t == RepeatType::Months,
        e.has_latest(now),
        -1_800_000 <= e.latest_index(now) <= 1_800_000,
    ensures
        !e.latest_far(now),
        !e.next_far(now),
{
    let k = e.latest_index(now);
    assert(e.brackets(k, now));
    e.lemma_calendar_occurrence_near_linear(k);
    e.lemma_calendar_occurrence_near_linear(k + 1);
    let n = e.repeating.n as int;
    let d = e.repeating.step_seconds();
    let x = now - e.initial;
    let q = e.search_start(now);
    assert(MEAN_MONTH_SECONDS * (n * (k + 1)) == 2629746 * n * k + 2629746 * n) by (nonlinear_arith);
    assert(MEAN_MONTH_SECONDS * (n * k) == 2629746 * n * k) by (nonlinear_arith);
    lemma_fundamental_div_mod(x, d);
    assert(q <= k + SEARCH_STEP_LIMIT) by (nonlinear_arith)
        requires
            d == n * 2628288,
            n >= 1,
            -1_800_000 <= k <= 1_800_000,
            x < 2629746 * n * k + 2629746 * n + 712152,
            x == d * q + x % d,
            0 <= x % d,
    ;
    assert(q >= k - SEARCH_STEP_LIMIT + 1) by (nonlinear_arith)
        requires
            d == n * 2628288,
            n >= 1,
            -1_800_000 <= k <= 1_800_000,
            2629746 * n * k - 712152 <= x,
            x == d * q + x % d,
            x % d < d,
    ;
    e.lemma_in_reach_from_estimate(now);
}

/// `a / b` rounded down.
fn floor_div(a: i128, b: i128) -> (q: i128)
    requires
        b > 0,
        -0x1_0000_0000_0000_0000 <= a <= 0x1_0000_0000_0000_0000,
    ensures
        q == a / b,
{
    if a >= 0 {
        (a as u128 / b as u128) as i128
    } else {
        let p: u128 = (-a - 1) as u128;
        let pq: u128 = p / b as u128;
        proof {
            lemma_fundamental_div_mod(p as int, b as int);
            let r = (p as int) % (b as int);
            assert((-pq - 1) * b + (b - r - 1) == -(b * pq + r) - 1) by (nonlinear_arith);
            lemma_fundamental_div_mod_converse(a as int, b as int, -pq - 1, b - r - 1);
        }
        -(pq as i128) - 1
    }
}

} // verus!
