//! The windowed optimizer: of the free starts in each clock hour it keeps
//! the one that leaves the most room around it for further appointments,
//! longest types first.

use vstd::prelude::*;
use crate::appointment::{
    AppointmentType, AppointmentTypeIter, DoctorsAppointment, duration_seconds, slot_count,
    types_longest_first,
};
use crate::calendar::DoctorsCalendar;
use crate::slots::{
    free_cell_test, free_start_test, holds_instant, is_free_cell_within, is_free_start,
    search_end, search_start, search_window,
};
use crate::time::{
    Timestamp, can_step, hour_start, in_range, instants, is_ascending,
    lemma_sublisting_is_no_longer, lists_exactly,
};

verus! {

/// How many free cells of the window `[from, to)` follow one another
/// without a gap from `t` on, `t` included.
pub open spec fn run_forward(booked: Seq<DoctorsAppointment>, from: int, to: int, t: int) -> int
    decreases (if t < to {
        to - t
    } else {
        0
    }),
{
    if is_free_cell_within(booked, from, to, t) {
        1 + run_forward(booked, from, to, t + 900)
    } else {
        0
    }
}

/// How many free cells of the window `[from, to)` precede one another
/// without a gap from `t` back, `t` included.
pub open spec fn run_backward(booked: Seq<DoctorsAppointment>, from: int, to: int, t: int) -> int
    decreases (if from <= t {
        t - from + 900
    } else {
        0
    }),
{
    if is_free_cell_within(booked, from, to, t) {
        1 + run_backward(booked, from, to, t - 900)
    } else {
        0
    }
}

/// How many appointments of each of `types`, taken in that order, fit into
/// a run of `forward` free cells and a run of `backward` free cells: each
/// type takes as many whole appointments out of either run as fit, and
/// leaves the remainders to the types after it.
pub open spec fn space_per_type(types: Seq<AppointmentType>, forward: int, backward: int) -> Seq<
    int,
>
    decreases types.len(),
{
    if types.len() == 0 {
        Seq::empty()
    } else {
        let cells = slot_count(types[0]);
        seq![forward / cells + backward / cells] + space_per_type(
            types.skip(1),
            forward % cells,
            backward % cells,
        )
    }
}

/// The room that is left around an appointment of type `ty` placed at `t`:
/// for each type, longest first, how many further appointments fit into the
/// free cells right after the appointment and right before it.
pub open spec fn space_around(
    booked: Seq<DoctorsAppointment>,
    from: int,
    to: int,
    ty: AppointmentType,
    t: int,
) -> Seq<int> {
    space_per_type(
        types_longest_first(),
        run_forward(booked, from, to, t + duration_seconds(ty)),
        run_backward(booked, from, to, t - 900),
    )
}

/// Whether `a` comes before `b` in dictionary order, greatest first: at the
/// first place where the two differ, `a` holds the greater number.
pub open spec fn outranks(a: Seq<int>, b: Seq<int>) -> bool {
    exists|i: int|
        0 <= i < a.len() && i < b.len() && #[trigger] a[i] > b[i] && forall|j: int|
            0 <= j < i ==> a[j] == b[j]
}

/// Whether the start `t` is to be kept rather than the start `u`: it
/// leaves more room than `u` where `u` is earlier, and `u` leaves no more
/// room than it where `u` is later.
#[verifier::opaque]
pub open spec fn leads(
    booked: Seq<DoctorsAppointment>,
    from: int,
    to: int,
    ty: AppointmentType,
    t: int,
    u: int,
) -> bool {
    &&& u < t ==> outranks(
        space_around(booked, from, to, ty, t),
        space_around(booked, from, to, ty, u),
    )
    &&& t < u ==> !outranks(
        space_around(booked, from, to, ty, u),
        space_around(booked, from, to, ty, t),
    )
}

/// Whether `t` is the free start that the optimizer keeps for its clock
/// hour: it leaves more room than every earlier free start of that hour,
/// and no later free start of that hour leaves more room than it.
pub open spec fn is_hour_choice(
    booked: Seq<DoctorsAppointment>,
    from: int,
    to: int,
    ty: AppointmentType,
    t: int,
) -> bool {
    &&& is_free_start(booked, from, to, ty, t)
    &&& forall|u: int|
        #[trigger] is_free_start(booked, from, to, ty, u) && hour_start(u) == hour_start(t)
            ==> leads(booked, from, to, ty, t, u)
}

/// The test that `is_hour_choice` makes, as a predicate on instants.
pub open spec fn hour_choice_test(
    booked: Seq<DoctorsAppointment>,
    from: int,
    to: int,
    ty: AppointmentType,
) -> spec_fn(int) -> bool {
    |t: int| is_hour_choice(booked, from, to, ty, t)
}

/// The numbers that a sequence of counts holds.
pub open spec fn numbers(s: Seq<u64>) -> Seq<int> {
    Seq::new(s.len(), |i: int| s[i] as int)
}

/// For each appointment type, longest first, how many appointments fit into
/// a run of `forward` free cells and a run of `backward` free cells.
pub fn count_space_per_type(forward: u64, backward: u64) -> (r: Vec<u64>)
    requires
        forward + backward <= u64::MAX,
    ensures
        numbers(r@) == space_per_type(types_longest_first(), forward as int, backward as int),
{
    let mut counts: Vec<u64> = Vec::new();
    let mut types = AppointmentTypeIter::new();
    let mut ahead: u64 = forward;
    let mut behind: u64 = backward;
    proof {
        assert(numbers(counts@) =~= Seq::<int>::empty());
    }
    loop
        invariant
            ahead + behind <= u64::MAX,
            numbers(counts@) + space_per_type(types@, ahead as int, behind as int)
                == space_per_type(types_longest_first(), forward as int, backward as int),
        ensures
            numbers(counts@) == space_per_type(
                types_longest_first(),
                forward as int,
                backward as int,
            ),
        decreases types@.len(),
    {
        let ghost before = numbers(counts@);
        let ghost walk = types@;
        match types.next() {
            None => {
                proof {
                    assert(space_per_type(walk, ahead as int, behind as int) =~= Seq::<int>::empty());
                    assert(before + Seq::<int>::empty() =~= before);
                }
                break;
            },
            Some(ty) => {
                let cells: u64 = ty.duration_in_time_slots() as u64;
                let fit: u64 = ahead / cells + behind / cells;
                counts.push(fit);
                proof {
                    assert(numbers(counts@) =~= before.push(fit as int));
                    assert(before.push(fit as int) + space_per_type(
                        walk.skip(1),
                        (ahead % cells) as int,
                        (behind % cells) as int,
                    ) =~= before + (seq![fit as int] + space_per_type(
                        walk.skip(1),
                        (ahead % cells) as int,
                        (behind % cells) as int,
                    )));
                }
                ahead = ahead % cells;
                behind = behind % cells;
            },
        }
    }
    counts
}

/// Whether the counts `a` come before the counts `b` in dictionary order,
/// greatest first.
pub fn counts_outrank(a: &Vec<u64>, b: &Vec<u64>) -> (r: bool)
    ensures
        r == outranks(numbers(a@), numbers(b@)),
{
    let mut i: usize = 0;
    while i < a.len() && i < b.len()
        invariant
            0 <= i <= a@.len(),
            i <= b@.len(),
            forall|j: int| 0 <= j < i ==> numbers(a@)[j] == numbers(b@)[j],
        decreases a@.len() - i,
    {
        if a[i] < b[i] {
            assert(numbers(a@)[i as int] < numbers(b@)[i as int]);
            return false;
        }
        if a[i] > b[i] {
            assert(numbers(a@)[i as int] > numbers(b@)[i as int]);
            return true;
        }
        assert(numbers(a@)[i as int] == numbers(b@)[i as int]);
        i = i + 1;
    }
    false
}

/// The room per type always names the three types, and dictionary order on
/// it is decided by the count of the longest type, then of the standard
/// type, then of the shortest.
pub proof fn lemma_space_per_type(forward: int, backward: int)
    ensures
        space_per_type(types_longest_first(), forward, backward).len() == 3,
        space_per_type(types_longest_first(), forward, backward)[0] == forward / 6 + backward / 6,
        space_per_type(types_longest_first(), forward, backward)[1] == (forward % 6) / 2 + (backward
            % 6) / 2,
        space_per_type(types_longest_first(), forward, backward)[2] == (forward % 6) % 2 + (backward
            % 6) % 2,
{
    let t0 = types_longest_first();
    let t1 = t0.skip(1);
    let t2 = t1.skip(1);
    let t3 = t2.skip(1);
    assert(t0[0] == AppointmentType::ImplantConsultation);
    assert(t1[0] == AppointmentType::DentalCheckUp);
    assert(t2[0] == AppointmentType::UrgentDentalAppointment);
    assert(t3.len() == 0);
    let f1 = forward % 6;
    let b1 = backward % 6;
    let f2 = f1 % 2;
    let b2 = b1 % 2;
    assert(space_per_type(t3, f2 % 1, b2 % 1) =~= Seq::<int>::empty());
    assert(space_per_type(t2, f2, b2) =~= seq![f2 / 1 + b2 / 1]);
    assert(space_per_type(t1, f1, b1) =~= seq![f1 / 2 + b1 / 2, f2 / 1 + b2 / 1]);
    assert(space_per_type(t0, forward, backward) =~= seq![
        forward / 6 + backward / 6,
        f1 / 2 + b1 / 2,
        f2 / 1 + b2 / 1,
    ]);
}

/// On sequences of three numbers, dictionary order is decided place by
/// place from the front.
pub proof fn lemma_outranks_of_three(a: Seq<int>, b: Seq<int>)
    requires
        a.len() == 3,
        b.len() == 3,
    ensures
        outranks(a, b) <==> (a[0] > b[0] || (a[0] == b[0] && (a[1] > b[1] || (a[1] == b[1] && a[2]
            > b[2])))),
{
    if a[0] > b[0] {
        assert(0 <= 0 < a.len() && a[0] > b[0]);
    } else if a[0] == b[0] && a[1] > b[1] {
        assert(0 <= 1 < a.len() && a[1] > b[1]);
    } else if a[0] == b[0] && a[1] == b[1] && a[2] > b[2] {
        assert(0 <= 2 < a.len() && a[2] > b[2]);
    }
}

/// Each clock hour has at most one choice.
pub proof fn lemma_hour_choice_is_unique(
    booked: Seq<DoctorsAppointment>,
    from: int,
    to: int,
    ty: AppointmentType,
    t: int,
    u: int,
)
    requires
        is_hour_choice(booked, from, to, ty, t),
        is_hour_choice(booked, from, to, ty, u),
        hour_start(t) == hour_start(u),
    ensures
        t == u,
{
    reveal(leads);
    assert(leads(booked, from, to, ty, t, u));
    assert(leads(booked, from, to, ty, u, t));
}

/// The hour in which an instant lies never comes before the hour of an
/// earlier instant.
pub proof fn lemma_hour_start_is_monotonic(t: int, u: int)
    requires
        t <= u,
    ensures
        hour_start(t) <= hour_start(u),
{
}

/// A start that leaves more room than the start that led so far leads every
/// start that the other one led.
proof fn lemma_leader_is_replaced(
    booked: Seq<DoctorsAppointment>,
    from: int,
    to: int,
    ty: AppointmentType,
    old_leader: int,
    new_leader: int,
    other: int,
)
    requires
        other < new_leader,
        old_leader < new_leader,
        outranks(
            space_around(booked, from, to, ty, new_leader),
            space_around(booked, from, to, ty, old_leader),
        ),
        leads(booked, from, to, ty, old_leader, other),
    ensures
        leads(booked, from, to, ty, new_leader, other),
{
    reveal(leads);
    let new_space = space_around(booked, from, to, ty, new_leader);
    let old_space = space_around(booked, from, to, ty, old_leader);
    let other_space = space_around(booked, from, to, ty, other);
    lemma_space_per_type(
        run_forward(booked, from, to, new_leader + duration_seconds(ty)),
        run_backward(booked, from, to, new_leader - 900),
    );
    lemma_space_per_type(
        run_forward(booked, from, to, old_leader + duration_seconds(ty)),
        run_backward(booked, from, to, old_leader - 900),
    );
    lemma_space_per_type(
        run_forward(booked, from, to, other + duration_seconds(ty)),
        run_backward(booked, from, to, other - 900),
    );
    lemma_outranks_of_three(new_space, old_space);
    lemma_outranks_of_three(new_space, other_space);
    lemma_outranks_of_three(old_space, other_space);
    lemma_outranks_of_three(other_space, old_space);
}

/// Whether, among the free starts `starts`, those at the places from
/// `first` up to `end` are the free starts of one clock hour, and `ideal`
/// is one of them and leads them all.
pub open spec fn is_best_of_hour(
    booked: Seq<DoctorsAppointment>,
    from: int,
    to: int,
    ty: AppointmentType,
    starts: Seq<int>,
    first: int,
    end: int,
    ideal: int,
) -> bool {
    &&& 0 <= first < end <= starts.len()
    &&& forall|m: int| first <= m < end ==> hour_start(#[trigger] starts[m]) == hour_start(starts[first])
    &&& end < starts.len() ==> hour_start(starts[end]) != hour_start(starts[first])
    &&& exists|m: int| first <= m < end && #[trigger] starts[m] == ideal
    &&& forall|m: int| first <= m < end ==> leads(booked, from, to, ty, ideal, #[trigger] starts[m])
}

/// The best of an hour is the choice of that hour, and the only one among
/// the free starts of the hour.
proof fn lemma_best_of_hour_is_choice(
    booked: Seq<DoctorsAppointment>,
    from: int,
    to: int,
    ty: AppointmentType,
    starts: Seq<int>,
    first: int,
    end: int,
    ideal: int,
)
    requires
        lists_exactly(starts, free_start_test(booked, from, to, ty)),
        is_best_of_hour(booked, from, to, ty, starts, first, end, ideal),
        first > 0 ==> hour_start(starts[first - 1]) < hour_start(starts[first]),
    ensures
        is_hour_choice(booked, from, to, ty, ideal),
        forall|m: int|
            first <= m < end && is_hour_choice(booked, from, to, ty, #[trigger] starts[m])
                ==> starts[m] == ideal,
        end < starts.len() ==> hour_start(starts[end - 1]) < hour_start(starts[end]),
        forall|m: int| 0 <= m < first ==> #[trigger] starts[m] < ideal,
{
    let hour = hour_start(starts[first]);
    let place = choose|m: int| first <= m < end && #[trigger] starts[m] == ideal;
    assert(starts.contains(starts[place]));
    assert forall|u: int|
        #[trigger] is_free_start(booked, from, to, ty, u) && hour_start(u) == hour_start(
            ideal,
        ) implies leads(booked, from, to, ty, ideal, u) by {
        assert(starts.contains(u));
        let m = choose|m: int| 0 <= m < starts.len() && starts[m] == u;
        if m < first {
            lemma_hour_start_is_monotonic(starts[m], starts[first - 1]);
        }
        if m >= end {
            lemma_hour_start_is_monotonic(starts[first], starts[end]);
            lemma_hour_start_is_monotonic(starts[end], starts[m]);
        }
        assert(first <= m < end);
    }
    assert forall|m: int|
        first <= m < end && is_hour_choice(
            booked,
            from,
            to,
            ty,
            #[trigger] starts[m],
        ) implies starts[m] == ideal by {
        lemma_hour_choice_is_unique(booked, from, to, ty, starts[m], ideal);
    }
    if end < starts.len() {
        lemma_hour_start_is_monotonic(starts[end - 1], starts[end]);
    }
}

/// Putting the best of the next hour at the end of the choices made so far
/// gives the choices among the free starts up to the end of that hour.
proof fn lemma_choice_is_added(
    booked: Seq<DoctorsAppointment>,
    from: int,
    to: int,
    ty: AppointmentType,
    starts: Seq<int>,
    first: int,
    end: int,
    ideal: int,
    before: Seq<int>,
)
    requires
        lists_exactly(starts, free_start_test(booked, from, to, ty)),
        is_best_of_hour(booked, from, to, ty, starts, first, end, ideal),
        first > 0 ==> hour_start(starts[first - 1]) < hour_start(starts[first]),
        is_ascending(before),
        forall|t: int|
            before.contains(t) <==> is_hour_choice(booked, from, to, ty, t) && exists|m: int|
                0 <= m < first && starts[m] == t,
    ensures
        is_ascending(before.push(ideal)),
        forall|t: int|
            before.push(ideal).contains(t) <==> is_hour_choice(booked, from, to, ty, t) && exists|
                m: int,
            | 0 <= m < end && starts[m] == t,
        end < starts.len() ==> hour_start(starts[end - 1]) < hour_start(starts[end]),
{
    lemma_best_of_hour_is_choice(booked, from, to, ty, starts, first, end, ideal);
    let after = before.push(ideal);
    let place = choose|m: int| first <= m < end && #[trigger] starts[m] == ideal;
    assert forall|a: int, b: int| 0 <= a < b < after.len() implies after[a] < after[b] by {
        if b == after.len() - 1 {
            assert(before.contains(before[a]));
            let m = choose|m: int| 0 <= m < first && starts[m] == before[a];
            assert(starts[m] < ideal);
        }
    }
    assert forall|t: int|
        after.contains(t) <==> is_hour_choice(booked, from, to, ty, t) && exists|m: int|
            0 <= m < end && starts[m] == t by {
        if after.contains(t) {
            let x = choose|x: int| 0 <= x < after.len() && after[x] == t;
            if x < before.len() {
                assert(before[x] == t);
                assert(before.contains(t));
                let m = choose|m: int| 0 <= m < first && starts[m] == t;
                assert(0 <= m < end && starts[m] == t);
            } else {
                assert(t == ideal);
                assert(0 <= place < end && starts[place] == t);
            }
        }
        if is_hour_choice(booked, from, to, ty, t) && exists|m: int|
            0 <= m < end && starts[m] == t {
            let m = choose|m: int| 0 <= m < end && starts[m] == t;
            if m < first {
                assert(before.contains(t));
                let x = choose|x: int| 0 <= x < before.len() && before[x] == t;
                assert(after[x] == t);
            } else {
                assert(starts[m] == ideal);
                assert(after[after.len() - 1] == t);
            }
        }
    }
}

/// How many entries of `available` follow one another at a distance of one
/// cell from the instant `t` on, `t` included.
fn count_run_forward(
    available: &Vec<Timestamp>,
    t: i64,
    Ghost(booked): Ghost<Seq<DoctorsAppointment>>,
    Ghost(from): Ghost<int>,
    Ghost(to): Ghost<int>,
) -> (r: u64)
    requires
        can_step(from),
        can_step(to),
        from <= t <= to + 5_400,
        lists_exactly(instants(available@), free_cell_test(booked, from, to)),
    ensures
        r == run_forward(booked, from, to, t as int),
        r * 900 <= to + 5_400 - from,
{
    let mut count: u64 = 0;
    let mut current: i64 = t;
    while holds_instant(available, current)
        invariant
            can_step(from),
            can_step(to),
            from <= t <= current <= to + 5_400,
            lists_exactly(instants(available@), free_cell_test(booked, from, to)),
            count * 900 == current - t,
            count + run_forward(booked, from, to, current as int) == run_forward(
                booked,
                from,
                to,
                t as int,
            ),
        decreases (if current < to {
            to - current
        } else {
            0
        }),
    {
        assert(is_free_cell_within(booked, from, to, current as int));
        count = count + 1;
        current = current + 900;
    }
    assert(!is_free_cell_within(booked, from, to, current as int));
    count
}

/// How many entries of `available` precede one another at a distance of one
/// cell from the instant `t` back, `t` included.
fn count_run_backward(
    available: &Vec<Timestamp>,
    t: i64,
    Ghost(booked): Ghost<Seq<DoctorsAppointment>>,
    Ghost(from): Ghost<int>,
    Ghost(to): Ghost<int>,
) -> (r: u64)
    requires
        can_step(from),
        can_step(to),
        from - 900 <= t < to,
        lists_exactly(instants(available@), free_cell_test(booked, from, to)),
    ensures
        r == run_backward(booked, from, to, t as int),
        r * 900 <= to + 5_400 - from,
{
    let mut count: u64 = 0;
    let mut current: i64 = t;
    while holds_instant(available, current)
        invariant
            can_step(from),
            can_step(to),
            from - 900 <= current <= t < to,
            lists_exactly(instants(available@), free_cell_test(booked, from, to)),
            count * 900 == t - current,
            count + run_backward(booked, from, to, current as int) == run_backward(
                booked,
                from,
                to,
                t as int,
            ),
        decreases (if from <= current {
            current - from + 900
        } else {
            0
        }),
    {
        assert(is_free_cell_within(booked, from, to, current as int));
        count = count + 1;
        current = current - 900;
    }
    assert(!is_free_cell_within(booked, from, to, current as int));
    count
}

impl DoctorsCalendar {
    /// The room that is left around an appointment of type
    /// `appointment_type` placed at the free start `start`, counted on
    /// `available`, the free cells of the window `[from, to)`.
    fn count_space_around(
        &self,
        available: &Vec<Timestamp>,
        from: Timestamp,
        to: Timestamp,
        appointment_type: AppointmentType,
        start: Timestamp,
    ) -> (r: Vec<u64>)
        requires
            can_step(from@),
            can_step(to@),
            from@ <= start@ < to@,
            lists_exactly(instants(available@), free_cell_test(self@, from@, to@)),
        ensures
            numbers(r@) == space_around(self@, from@, to@, appointment_type, start@),
    {
        let after: i64 = start.secs + appointment_type.duration().secs;
        let forward = count_run_forward(available, after, Ghost(self@), Ghost(from@), Ghost(to@));
        let backward = count_run_backward(
            available,
            start.secs - 900,
            Ghost(self@),
            Ghost(from@),
            Ghost(to@),
        );
        count_space_per_type(forward, backward)
    }

    /// Walks the free starts `free` from the place `first` to the end of
    /// the clock hour of the start at that place, and hands back the start
    /// of that hour that leads the others, with the place after the hour's
    /// last start.
    fn best_of_hour(
        &self,
        free: &Vec<Timestamp>,
        available: &Vec<Timestamp>,
        from: Timestamp,
        to: Timestamp,
        appointment_type: AppointmentType,
        first: usize,
    ) -> (r: (Timestamp, usize))
        requires
            can_step(from@),
            can_step(to@),
            first < free@.len(),
            lists_exactly(instants(free@), free_start_test(self@, from@, to@, appointment_type)),
            lists_exactly(instants(available@), free_cell_test(self@, from@, to@)),
        ensures
            is_best_of_hour(
                self@,
                from@,
                to@,
                appointment_type,
                instants(free@),
                first as int,
                r.1 as int,
                r.0@,
            ),
    {
        let ghost starts = instants(free@);
        let ghost booked = self@;
        let ghost ty = appointment_type;
        let opening = free[first];
        assert(starts[first as int] == opening@);
        assert(starts.contains(opening@));
        assert(is_free_cell_within(booked, from@, to@, opening@ + 900 * 0));
        let hour: i64 = opening.hour_start().secs;
        let mut ideal = opening;
        let mut ideal_space = self.count_space_around(
            available,
            from,
            to,
            appointment_type,
            opening,
        );
        let ghost mut place: int = first as int;
        let length: usize = free.len();
        assert(leads(booked, from@, to@, ty, opening@, opening@)) by {
            reveal(leads);
        }
        let mut j: usize = first + 1;
        loop
            invariant
                0 <= first < free@.len(),
                first <= place < j <= free@.len(),
                length == free@.len(),
                starts == instants(free@),
                booked == self@,
                ty == appointment_type,
                can_step(from@),
                can_step(to@),
                lists_exactly(starts, free_start_test(booked, from@, to@, ty)),
                lists_exactly(instants(available@), free_cell_test(booked, from@, to@)),
                hour == hour_start(starts[first as int]),
                ideal@ == starts[place],
                numbers(ideal_space@) == space_around(booked, from@, to@, ty, ideal@),
                forall|m: int| first <= m < j ==> hour_start(#[trigger] starts[m]) == hour,
                forall|m: int|
                    first <= m < j ==> leads(booked, from@, to@, ty, ideal@, #[trigger] starts[m]),
            ensures
                j < free@.len() ==> hour_start(starts[j as int]) != hour,
            decreases free@.len() - j,
        {
            if j >= length {
                break;
            }
            let next = free[j];
            assert(starts[j as int] == next@);
            assert(starts.contains(next@));
            assert(is_free_cell_within(booked, from@, to@, next@ + 900 * 0));
            if next.hour_start().secs != hour {
                break;
            }
            let space = self.count_space_around(available, from, to, appointment_type, next);
            let better = counts_outrank(&space, &ideal_space);
            proof {
                assert(ideal@ < next@);
                if better {
                    assert forall|m: int| first <= m < j + 1 implies leads(
                        booked,
                        from@,
                        to@,
                        ty,
                        next@,
                        #[trigger] starts[m],
                    ) by {
                        if m < j {
                            lemma_leader_is_replaced(
                                booked,
                                from@,
                                to@,
                                ty,
                                ideal@,
                                next@,
                                starts[m],
                            );
                        } else {
                            reveal(leads);
                        }
                    }
                } else {
                    assert(leads(booked, from@, to@, ty, ideal@, next@)) by {
                        reveal(leads);
                    }
                }
            }
            if better {
                ideal = next;
                ideal_space = space;
                proof {
                    place = j as int;
                }
            }
            j = j + 1;
        }
        (ideal, j)
    }

    /// Of the starts at which an appointment of type `appointment_type`
    /// fits inside the window `[from, to)`, the one choice of each clock
    /// hour, in ascending order: the earliest of the free starts of the
    /// hour around which the most room is left, where room is compared type
    /// by type from the longest to the shortest.
    pub fn free_slots_optimized_between(
        &self,
        from: Timestamp,
        to: Timestamp,
        appointment_type: AppointmentType,
    ) -> (r: Vec<Timestamp>)
        requires
            self.wf(),
            can_step(from@),
            can_step(to@),
        ensures
            lists_exactly(instants(r@), hour_choice_test(self@, from@, to@, appointment_type)),
    {
        let free = self.free_slots_between(from, to, appointment_type);
        let available = self.available_single_time_slots(from, to);
        let ghost starts = instants(free@);
        let ghost booked = self@;
        let ghost ty = appointment_type;
        let mut chosen: Vec<Timestamp> = Vec::new();
        let mut i: usize = 0;
        proof {
            assert(instants(chosen@) =~= Seq::<int>::empty());
        }
        while i < free.len()
            invariant
                0 <= i <= free@.len(),
                starts == instants(free@),
                booked == self@,
                ty == appointment_type,
                can_step(from@),
                can_step(to@),
                lists_exactly(starts, free_start_test(booked, from@, to@, ty)),
                lists_exactly(instants(available@), free_cell_test(booked, from@, to@)),
                is_ascending(instants(chosen@)),
                0 < i < free@.len() ==> hour_start(starts[i - 1]) < hour_start(starts[i as int]),
                forall|t: int|
                    instants(chosen@).contains(t) <==> is_hour_choice(booked, from@, to@, ty, t)
                        && exists|m: int| 0 <= m < i && starts[m] == t,
            decreases free@.len() - i,
        {
            let (ideal, end) = self.best_of_hour(&free, &available, from, to, appointment_type, i);
            let ghost before = instants(chosen@);
            chosen.push(ideal);
            proof {
                assert(instants(chosen@) =~= before.push(ideal@));
                lemma_choice_is_added(
                    booked,
                    from@,
                    to@,
                    ty,
                    starts,
                    i as int,
                    end as int,
                    ideal@,
                    before,
                );
            }
            i = end;
        }
        proof {
            assert forall|t: int|
                instants(chosen@).contains(t) <==> is_hour_choice(booked, from@, to@, ty, t) by {
                if is_hour_choice(booked, from@, to@, ty, t) {
                    assert(starts.contains(t));
                    let m = choose|m: int| 0 <= m < starts.len() && starts[m] == t;
                    assert(0 <= m < i && starts[m] == t);
                }
            }
        }
        chosen
    }

    /// The optimized free starts from `from` on and not after `to`: see
    /// `free_slots_optimized_between`, on the window that `search_window`
    /// gives.
    pub fn free_slots_optimized(
        &self,
        from: Option<Timestamp>,
        to: Option<Timestamp>,
        appointment_type: AppointmentType,
    ) -> (r: Vec<Timestamp>)
        requires
            self.wf(),
            from matches Some(f) ==> in_range(f@),
            to matches Some(t) ==> in_range(t@),
        ensures
            from matches Some(f) ==> to matches Some(t) ==> lists_exactly(
                instants(r@),
                hour_choice_test(
                    self@,
                    f@,
                    t@ + duration_seconds(appointment_type),
                    appointment_type,
                ),
            ),
            exists|c1: int, c2: int|
                in_range(c1) && in_range(c2) && lists_exactly(
                    instants(r@),
                    hour_choice_test(
                        self@,
                        #[trigger] search_start(from, c1),
                        #[trigger] search_end(to, appointment_type, c2),
                        appointment_type,
                    ),
                ),
    {
        let (start, end) = search_window(from, to, appointment_type);
        self.free_slots_optimized_between(start, end, appointment_type)
    }
}

/// What the optimizer keeps is a selection of the free starts with at most
/// one start in each clock hour.
pub proof fn lemma_optimized_keeps_one_free_start_per_hour(
    booked: Seq<DoctorsAppointment>,
    from: int,
    to: int,
    ty: AppointmentType,
    starts: Seq<int>,
    chosen: Seq<int>,
)
    requires
        lists_exactly(starts, free_start_test(booked, from, to, ty)),
        lists_exactly(chosen, hour_choice_test(booked, from, to, ty)),
    ensures
        forall|t: int| chosen.contains(t) ==> starts.contains(t),
        forall|i: int, j: int|
            0 <= i < j < chosen.len() ==> hour_start(#[trigger] chosen[i]) != hour_start(
                #[trigger] chosen[j],
            ),
        chosen.len() <= starts.len(),
{
    assert forall|t: int| chosen.contains(t) implies starts.contains(t) by {
        assert(chosen.contains(t) == hour_choice_test(booked, from, to, ty)(t));
        assert(starts.contains(t) == free_start_test(booked, from, to, ty)(t));
    }
    assert forall|i: int, j: int| 0 <= i < j < chosen.len() implies hour_start(
        #[trigger] chosen[i],
    ) != hour_start(#[trigger] chosen[j]) by {
        assert(chosen.contains(chosen[i]));
        assert(chosen.contains(chosen[j]));
        assert(hour_choice_test(booked, from, to, ty)(chosen[i]));
        assert(hour_choice_test(booked, from, to, ty)(chosen[j]));
        if hour_start(chosen[i]) == hour_start(chosen[j]) {
            lemma_hour_choice_is_unique(booked, from, to, ty, chosen[i], chosen[j]);
        }
    }
    lemma_sublisting_is_no_longer(starts, chosen);
}

} // verus!
