//! Instants and spans on the scheduling time line.
//!
//! An instant is a count of seconds since 1970-01-01 00:00:00 on a naive
//! (zone-less) calendar in which every day has exactly 86 400 seconds.

use vstd::prelude::*;

verus! {

/// Seconds in one minute.
pub const SECONDS_PER_MINUTE: i64 = 60;

/// Seconds in one hour.
pub const SECONDS_PER_HOUR: i64 = 3_600;

/// Seconds in one day.
pub const SECONDS_PER_DAY: i64 = 86_400;

/// Seconds in one cell of the scheduling grid (15 minutes).
pub const SLOT_SECONDS: i64 = 900;

/// Largest distance from the epoch, in seconds, at which the engine accepts
/// an instant as input. Every sum the engine forms from accepted instants
/// stays far inside `i64`.
pub const RANGE_SECONDS: i64 = 1_000_000_000_000_000;

/// Number of the day that holds instant `t` (day 0 starts at the epoch).
pub open spec fn day_number(t: int) -> int {
    t / 86_400
}

/// Seconds elapsed since midnight at instant `t`.
pub open spec fn second_of_day(t: int) -> int {
    t % 86_400
}

/// First instant of the day that holds `t`.
pub open spec fn day_start(t: int) -> int {
    t - t % 86_400
}

/// Day of the week of instant `t`, counted from Monday = 0 to Sunday = 6.
/// Day 0 (1970-01-01) was a Thursday.
pub open spec fn weekday_from_monday(t: int) -> int {
    (t / 86_400 + 3) % 7
}

/// Whether `t` lies on the 15-minute grid.
pub open spec fn on_grid(t: int) -> bool {
    t % 900 == 0
}

/// The latest grid point that is not after `t`.
pub open spec fn grid_floor(t: int) -> int {
    t - t % 900
}

/// First instant of the clock hour that holds `t`.
pub open spec fn hour_start(t: int) -> int {
    t - t % 3_600
}

/// Whether the engine accepts `t` as an input instant.
pub open spec fn in_range(t: int) -> bool {
    -1_000_000_000_000_000 <= t <= 1_000_000_000_000_000
}

/// The instant in range that is nearest to `t`: `t` itself when it is in
/// range, else the end of the range on its side.
pub open spec fn nearest_in_range(t: int) -> int {
    if t > 1_000_000_000_000_000 {
        1_000_000_000_000_000
    } else if t < -1_000_000_000_000_000 {
        -1_000_000_000_000_000
    } else {
        t
    }
}

/// Whether the engine can step forward from `t`: a week on either side of
/// `t` is still an instant that a timestamp can hold. Every instant in
/// range, and every instant within years of one, can be stepped from.
pub open spec fn can_step(t: int) -> bool {
    -9_000_000_000_000_000_000 <= t <= 9_000_000_000_000_000_000
}

/// Whether the entries of `s` strictly ascend.
pub open spec fn is_ascending(s: Seq<int>) -> bool {
    forall|i: int, j: int| 0 <= i < j < s.len() ==> s[i] < s[j]
}

/// Whether `s` lists, in ascending order and each once, exactly the
/// instants for which `test` holds.
pub open spec fn lists_exactly(s: Seq<int>, test: spec_fn(int) -> bool) -> bool {
    &&& is_ascending(s)
    &&& forall|t: int| s.contains(t) <==> test(t)
}

/// A naive date-time with second precision.
#[derive(Clone, Copy, Debug, PartialEq, Eq, Structural, PartialOrd, Ord, Hash)]
pub struct Timestamp {
    /// Seconds since 1970-01-01 00:00:00.
    pub secs: i64,
}

impl View for Timestamp {
    type V = int;

    open spec fn view(&self) -> int {
        self.secs as int
    }
}

/// The instants held by a sequence of timestamps, in the same order.
pub open spec fn instants(s: Seq<Timestamp>) -> Seq<int> {
    Seq::new(s.len(), |i: int| s[i]@)
}

/// A signed span of time with second precision.
#[derive(Clone, Copy, Debug, PartialEq, Eq, Structural, PartialOrd, Ord, Hash)]
pub struct Duration {
    /// Length of the span in seconds.
    pub secs: i64,
}

impl View for Duration {
    type V = int;

    open spec fn view(&self) -> int {
        self.secs as int
    }
}

impl Duration {
    /// A span of `minutes` minutes.
    pub fn minutes(minutes: i64) -> (r: Duration)
        requires
            i64::MIN <= minutes * 60 <= i64::MAX,
        ensures
            r@ == minutes * 60,
    {
        Duration { secs: minutes * SECONDS_PER_MINUTE }
    }

    /// A span of `days` days.
    pub fn days(days: i64) -> (r: Duration)
        requires
            i64::MIN <= days * 86_400 <= i64::MAX,
        ensures
            r@ == days * 86_400,
    {
        Duration { secs: days * SECONDS_PER_DAY }
    }

    /// Whole minutes in the span, rounded toward zero.
    pub fn num_minutes(&self) -> (r: i64)
        ensures
            self@ >= 0 ==> r == self@ / 60,
            self@ < 0 ==> r == -((-self@) / 60),
    {
        self.secs / SECONDS_PER_MINUTE
    }

    /// Whole seconds in the span.
    pub fn num_seconds(&self) -> (r: i64)
        ensures
            r == self@,
    {
        self.secs
    }
}

impl Timestamp {
    /// The instant `secs` seconds after the epoch.
    pub fn from_seconds(secs: i64) -> (r: Timestamp)
        ensures
            r@ == secs,
    {
        Timestamp { secs }
    }

    /// Seconds since the epoch.
    pub fn seconds(&self) -> (r: i64)
        ensures
            r == self@,
    {
        self.secs
    }

    /// Whether the engine can step forward from this instant.
    pub fn is_steppable(&self) -> (r: bool)
        ensures
            r == can_step(self@),
    {
        -9_000_000_000_000_000_000 <= self.secs && self.secs <= 9_000_000_000_000_000_000
    }

    /// Whether the engine accepts this instant as input.
    pub fn is_in_range(&self) -> (r: bool)
        ensures
            r == in_range(self@),
    {
        -RANGE_SECONDS <= self.secs && self.secs <= RANGE_SECONDS
    }

    /// The nearest instant that the engine accepts as input: this one when it
    /// is in range, else the end of the range on its side.
    pub fn clamp_to_range(&self) -> (r: Timestamp)
        ensures
            r@ == nearest_in_range(self@),
            in_range(r@),
    {
        if self.secs > RANGE_SECONDS {
            Timestamp { secs: RANGE_SECONDS }
        } else if self.secs < -RANGE_SECONDS {
            Timestamp { secs: -RANGE_SECONDS }
        } else {
            *self
        }
    }

    /// Seconds elapsed since midnight, from 0 to 86 399.
    pub fn second_of_day(&self) -> (r: i64)
        ensures
            r == second_of_day(self@),
            0 <= r < 86_400,
    {
        match self.secs.checked_rem_euclid(SECONDS_PER_DAY) {
            Some(r) => r,
            None => 0,
        }
    }

    /// Number of the day that holds this instant.
    pub fn day_number(&self) -> (r: i64)
        ensures
            r == day_number(self@),
    {
        match self.secs.checked_div_euclid(SECONDS_PER_DAY) {
            Some(r) => r,
            None => 0,
        }
    }

    /// Day of the week, counted from Monday = 0 to Sunday = 6.
    pub fn weekday_from_monday(&self) -> (r: i64)
        ensures
            r == weekday_from_monday(self@),
            0 <= r < 7,
    {
        let day: i64 = self.day_number();
        match (day + 3).checked_rem_euclid(7) {
            Some(r) => r,
            None => 0,
        }
    }

    /// Whether this instant lies on the 15-minute grid.
    pub fn is_on_grid(&self) -> (r: bool)
        ensures
            r == on_grid(self@),
    {
        match self.secs.checked_rem_euclid(SLOT_SECONDS) {
            Some(r) => r == 0,
            None => false,
        }
    }

    /// The latest grid point that is not after this instant.
    pub fn grid_floor(&self) -> (r: Timestamp)
        requires
            i64::MIN + 86_400 <= self@,
        ensures
            r@ == grid_floor(self@),
    {
        match self.secs.checked_rem_euclid(SLOT_SECONDS) {
            Some(offset) => Timestamp { secs: self.secs - offset },
            None => *self,
        }
    }

    /// The first instant of the clock hour that holds this instant.
    pub fn hour_start(&self) -> (r: Timestamp)
        requires
            i64::MIN + 86_400 <= self@,
        ensures
            r@ == hour_start(self@),
    {
        match self.secs.checked_rem_euclid(SECONDS_PER_HOUR) {
            Some(offset) => Timestamp { secs: self.secs - offset },
            None => *self,
        }
    }

    /// The first instant of the day that holds this instant.
    pub fn day_start(&self) -> (r: Timestamp)
        requires
            i64::MIN + 86_400 <= self@,
        ensures
            r@ == day_start(self@),
    {
        Timestamp { secs: self.secs - self.second_of_day() }
    }

    /// This instant moved by `span`.
    pub fn plus(&self, span: Duration) -> (r: Timestamp)
        requires
            i64::MIN <= self@ + span@ <= i64::MAX,
        ensures
            r@ == self@ + span@,
    {
        Timestamp { secs: self.secs + span.secs }
    }

    /// This instant moved back by `span`.
    pub fn minus(&self, span: Duration) -> (r: Timestamp)
        requires
            i64::MIN <= self@ - span@ <= i64::MAX,
        ensures
            r@ == self@ - span@,
    {
        Timestamp { secs: self.secs - span.secs }
    }

    /// The span from `earlier` to this instant.
    pub fn since(&self, earlier: Timestamp) -> (r: Duration)
        requires
            i64::MIN <= self@ - earlier@ <= i64::MAX,
        ensures
            r@ == self@ - earlier@,
    {
        Duration { secs: self.secs - earlier.secs }
    }
}

/// Two ascending sequences that hold the same instants are one and the same
/// sequence: an ascending listing is fixed by what it lists.
pub proof fn lemma_ascending_listing_is_unique(a: Seq<int>, b: Seq<int>)
    requires
        is_ascending(a),
        is_ascending(b),
        forall|t: int| a.contains(t) <==> b.contains(t),
    ensures
        a == b,
    decreases a.len(),
{
    if a.len() == 0 {
        if b.len() > 0 {
            assert(b.contains(b[0]));
            assert(a.contains(b[0]));
        }
        assert(a =~= b);
    } else {
        assert(a.contains(a.last()));
        assert(b.contains(a.last()));
        let i = choose|i: int| 0 <= i < b.len() && b[i] == a.last();
        if i < b.len() - 1 {
            assert(b.contains(b.last()));
            assert(a.contains(b.last()));
            let j = choose|j: int| 0 <= j < a.len() && a[j] == b.last();
            assert(false);
        }
        let a0 = a.drop_last();
        let b0 = b.drop_last();
        assert forall|t: int| a0.contains(t) <==> b0.contains(t) by {
            if a0.contains(t) {
                let j = choose|j: int| 0 <= j < a0.len() && a0[j] == t;
                assert(a[j] == t);
                assert(a.contains(t));
                assert(b.contains(t));
                let m = choose|m: int| 0 <= m < b.len() && b[m] == t;
                assert(m < b.len() - 1);
                assert(b0[m] == t);
            }
            if b0.contains(t) {
                let j = choose|j: int| 0 <= j < b0.len() && b0[j] == t;
                assert(b[j] == t);
                assert(b.contains(t));
                assert(a.contains(t));
                let m = choose|m: int| 0 <= m < a.len() && a[m] == t;
                assert(m < a.len() - 1);
                assert(a0[m] == t);
            }
        }
        lemma_ascending_listing_is_unique(a0, b0);
        assert(a =~= a0.push(a.last()));
        assert(b =~= b0.push(b.last()));
    }
}

/// An ascending listing is no longer than an ascending listing that holds
/// all that it holds.
pub proof fn lemma_sublisting_is_no_longer(whole: Seq<int>, part: Seq<int>)
    requires
        is_ascending(whole),
        is_ascending(part),
        forall|t: int| part.contains(t) ==> whole.contains(t),
    ensures
        part.len() <= whole.len(),
    decreases whole.len(),
{
    if part.len() == 0 {
    } else {
        assert(part.contains(part.last()));
        assert(whole.contains(part.last()));
        let at = choose|i: int| 0 <= i < whole.len() && whole[i] == part.last();
        let shorter = whole.drop_last();
        let rest = part.drop_last();
        assert forall|t: int| rest.contains(t) implies shorter.contains(t) by {
            let i = choose|i: int| 0 <= i < rest.len() && rest[i] == t;
            assert(part[i] == t);
            assert(part.contains(t));
            assert(whole.contains(t));
            let j = choose|j: int| 0 <= j < whole.len() && whole[j] == t;
            assert(t < part.last());
            assert(j < at);
            assert(shorter[j] == t);
        }
        lemma_sublisting_is_no_longer(shorter, rest);
    }
}

/// An ascending listing is shorter than an ascending listing that holds all
/// that it holds and one instant more.
pub proof fn lemma_strict_sublisting_is_shorter(whole: Seq<int>, part: Seq<int>, extra: int)
    requires
        is_ascending(whole),
        is_ascending(part),
        forall|t: int| part.contains(t) ==> whole.contains(t),
        whole.contains(extra),
        !part.contains(extra),
    ensures
        part.len() < whole.len(),
{
    let at = choose|i: int| 0 <= i < whole.len() && whole[i] == extra;
    let others = whole.remove(at);
    whole.remove_ensures(at);
    assert forall|t: int| part.contains(t) implies others.contains(t) by {
        assert(whole.contains(t));
        let j = choose|j: int| 0 <= j < whole.len() && whole[j] == t;
        if j < at {
            assert(others[j] == t);
        } else {
            assert(others[j - 1] == t);
        }
    }
    lemma_sublisting_is_no_longer(others, part);
}

} // verus!
