//! The random filler: books appointments of one type at free starts drawn
//! at random until a share of the working cells of a window is occupied.

use vstd::prelude::*;
use rand::Rng;
use crate::appointment::{AppointmentType, DoctorsAppointment, duration_seconds, slot_count};
use crate::calendar::{
    DoctorsCalendar, booked_with, booking_outcome, is_schedule, lemma_booked_with,
    lemma_place_of_bounds, overlaps_booked, place_of, span_is_taken, window_test,
};
use crate::slots::{free_start_test, is_free_cell_within, is_free_start};
use crate::time::{Timestamp, in_range, instants, lemma_strict_sublisting_is_shorter, lists_exactly};
use crate::working_hours::{
    WorkingDayTimes, count_working_cells, is_working_cell, working_cells_between,
};

verus! {

/// How many grid cells the appointments of `booked` cover together.
pub open spec fn cell_total(booked: Seq<DoctorsAppointment>) -> int
    decreases booked.len(),
{
    if booked.len() == 0 {
        0
    } else {
        cell_total(booked.drop_last()) + slot_count(booked.last().appointment_type)
    }
}

/// How many grid cells are covered by the appointments of `booked` that
/// start in the closed window `[from, to]`.
pub open spec fn occupied_cells(
    booked: Seq<DoctorsAppointment>,
    from: Timestamp,
    to: Timestamp,
) -> int {
    cell_total(booked.filter(window_test(Some(from), Some(to))))
}

/// Whether filling stops: `occupied` of `total` cells are exactly `percent`
/// per cent, or one more appointment of `cells` cells would make it more
/// than `percent` per cent.
pub open spec fn is_filled(occupied: int, total: int, cells: int, percent: int) -> bool {
    occupied * 100 == percent * total || (occupied + cells) * 100 > percent * total
}

/// An appointment of type `ty` that starts at `start`.
pub open spec fn appointment_at(start: Timestamp, ty: AppointmentType) -> DoctorsAppointment {
    DoctorsAppointment { date_time: start, appointment_type: ty }
}

/// The schedule that `before` becomes when appointments of type `ty` are
/// booked at the starts `picks`, one after the other.
pub open spec fn after_picks(
    before: Seq<DoctorsAppointment>,
    picks: Seq<Timestamp>,
    ty: AppointmentType,
) -> Seq<DoctorsAppointment>
    decreases picks.len(),
{
    if picks.len() == 0 {
        before
    } else {
        booked_with(after_picks(before, picks.drop_last(), ty), appointment_at(picks.last(), ty))
    }
}

/// Whether the schedule `booked` counts as filled for the window
/// `[from, to]`, the type `ty` and the target `percent`.
pub open spec fn schedule_is_filled(
    booked: Seq<DoctorsAppointment>,
    from: Timestamp,
    to: Timestamp,
    ty: AppointmentType,
    percent: int,
) -> bool {
    is_filled(
        occupied_cells(booked, from, to),
        working_cells_between(from@, to@),
        slot_count(ty),
        percent,
    )
}

/// Whether filling goes on from the schedule `booked` after `turns`
/// bookings: the first booking is always made, each further one only while
/// the schedule is not filled.
pub open spec fn may_go_on(
    booked: Seq<DoctorsAppointment>,
    turns: int,
    from: Timestamp,
    to: Timestamp,
    ty: AppointmentType,
    percent: int,
) -> bool {
    turns == 0 || !schedule_is_filled(booked, from, to, ty, percent)
}

/// Whether `picks` is a course that filling can take from the schedule
/// `before`: at each turn filling goes on, and the pick of the turn is a
/// start at which an appointment of type `ty` is free, from `from` on and
/// not after `to`, in the schedule that the earlier picks have left.
pub open spec fn is_fill_run(
    before: Seq<DoctorsAppointment>,
    picks: Seq<Timestamp>,
    from: Timestamp,
    to: Timestamp,
    ty: AppointmentType,
    percent: int,
) -> bool {
    forall|i: int|
        0 <= i < picks.len() ==> may_go_on(
            #[trigger] after_picks(before, picks.take(i), ty),
            i,
            from,
            to,
            ty,
            percent,
        ) && is_free_start(
            after_picks(before, picks.take(i), ty),
            from@,
            to@ + duration_seconds(ty),
            ty,
            picks[i]@,
        )
}

/// Whether filling ends at the schedule `booked` after `turns` bookings:
/// the schedule is filled, or filling would go on but no start is free.
pub open spec fn fill_has_ended(
    booked: Seq<DoctorsAppointment>,
    turns: int,
    from: Timestamp,
    to: Timestamp,
    ty: AppointmentType,
    percent: int,
) -> bool {
    ||| turns > 0 && schedule_is_filled(booked, from, to, ty, percent)
    ||| may_go_on(booked, turns, from, to, ty, percent) && no_free_start(
        booked,
        from@,
        to@ + duration_seconds(ty),
        ty,
    )
}

/// Whether no appointment of type `ty` fits anywhere inside the window
/// `[from, to)`.
pub open spec fn no_free_start(
    booked: Seq<DoctorsAppointment>,
    from: int,
    to: int,
    ty: AppointmentType,
) -> bool {
    forall|t: int| !#[trigger] is_free_start(booked, from, to, ty, t)
}

/// Draws a place below `len` with `rand::Rng::gen_range` on the generator
/// that `rand::thread_rng` hands out. Trusted: the place lies in
/// `0..len`; which place it is differs from call to call.
#[verifier::external_body]
fn random_index(len: usize) -> (r: usize)
    requires
        len > 0,
    ensures
        r < len,
{
    rand::thread_rng().gen_range(0..len)
}

/// Whether `occupied` of `total` cells count as filled for appointments of
/// `cells` cells and the target `percent`.
pub fn target_reached(occupied: u64, total: u64, cells: u8, percent: u8) -> (r: bool)
    ensures
        r == is_filled(occupied as int, total as int, cells as int, percent as int),
{
    target_reached_wide(occupied as u128, total, cells, percent)
}

/// `target_reached` for a count of occupied cells that may exceed 64 bits,
/// as the sum over a calendar of any length may.
fn target_reached_wide(occupied: u128, total: u64, cells: u8, percent: u8) -> (r: bool)
    requires
        occupied <= 0xffff_ffff_ffff_ffff_ffff,
    ensures
        r == is_filled(occupied as int, total as int, cells as int, percent as int),
{
    assert(percent * total <= 255 * 0xffff_ffff_ffff_ffff) by (nonlinear_arith)
        requires
            0 <= percent <= 255,
            0 <= total <= 0xffff_ffff_ffff_ffff,
    ;
    let share: u128 = percent as u128 * total as u128;
    occupied * 100 == share || (occupied + cells as u128) * 100 > share
}

impl DoctorsCalendar {
    /// How many grid cells are covered by the appointments that start in
    /// the closed window `[from, to]`.
    pub fn count_occupied_cells(&self, from: Timestamp, to: Timestamp) -> (r: u128)
        ensures
            r == occupied_cells(self@, from, to),
            r <= 6 * usize::MAX,
    {
        let booked = self.booked_appointments(Some(from), Some(to));
        let mut occupied: u128 = 0;
        let mut i: usize = 0;
        proof {
            assert(booked@.take(0) =~= Seq::<DoctorsAppointment>::empty());
            self@.lemma_filter_len(window_test(Some(from), Some(to)));
        }
        let count: usize = booked.len();
        while i < count
            invariant
                0 <= i <= booked@.len(),
                count == booked@.len(),
                occupied == cell_total(booked@.take(i as int)),
                occupied <= 6 * i,
            decreases booked@.len() - i,
        {
            proof {
                assert(booked@.take(i + 1).drop_last() =~= booked@.take(i as int));
                assert(booked@.take(i + 1).last() == booked@[i as int]);
            }
            occupied = occupied + booked[i].appointment_type.duration_in_time_slots() as u128;
            i = i + 1;
        }
        proof {
            assert(booked@.take(booked@.len() as int) =~= booked@);
        }
        occupied
    }

    /// One turn of filling: books an appointment of type `appointment_type`
    /// at the start that `free` holds at the place `index`, and says
    /// whether the calendar then counts as filled for the window
    /// `[from, to]`, of which `total` cells are working cells. `free` lists
    /// the free starts from `from` on and not after `to`.
    pub fn fill_turn(
        &mut self,
        from: Timestamp,
        to: Timestamp,
        appointment_type: AppointmentType,
        filled_percentage: u8,
        total: u64,
        free: &Vec<Timestamp>,
        index: usize,
    ) -> (done: bool)
        requires
            old(self).wf(),
            in_range(from@),
            in_range(to@),
            index < free@.len(),
            lists_exactly(
                instants(free@),
                free_start_test(
                    old(self)@,
                    from@,
                    to@ + duration_seconds(appointment_type),
                    appointment_type,
                ),
            ),
        ensures
            final(self).wf(),
            final(self)@ == booked_with(
                old(self)@,
                appointment_at(free@[index as int], appointment_type),
            ),
            done == is_filled(
                occupied_cells(final(self)@, from, to),
                total as int,
                slot_count(appointment_type),
                filled_percentage as int,
            ),
    {
        let slot = free[index];
        let appointment = DoctorsAppointment::new(slot, appointment_type);
        proof {
            assert(instants(free@)[index as int] == slot@);
            assert(instants(free@).contains(slot@));
            lemma_free_start_can_be_booked(
                self@,
                from@,
                to@ + duration_seconds(appointment_type),
                appointment_type,
                slot,
            );
            assert(is_free_cell_within(
                self@,
                from@,
                to@ + duration_seconds(appointment_type),
                slot@ + 900 * 0,
            ));
        }
        let outcome = self.add_appointment(appointment);
        assert(outcome.is_ok());
        let occupied = self.count_occupied_cells(from, to);
        target_reached_wide(
            occupied,
            total,
            appointment_type.duration_in_time_slots(),
            filled_percentage,
        )
    }

    /// Books appointments of type `appointment_type` at free starts drawn
    /// at random, from `from` on and not after `to`, until the appointments
    /// that start in `[from, to]` cover `filled_percentage` per cent of the
    /// working cells of that window, or one more would cover more than
    /// that, or no start is free. Where a start is free the first booking
    /// is made whatever the target.
    pub fn fill_random(
        &mut self,
        from: Timestamp,
        to: Timestamp,
        appointment_type: AppointmentType,
        filled_percentage: u8,
    )
        requires
            old(self).wf(),
            in_range(from@),
            in_range(to@),
        ensures
            final(self).wf(),
            exists|picks: Seq<Timestamp>|
                is_fill_run(
                    old(self)@,
                    picks,
                    from,
                    to,
                    appointment_type,
                    filled_percentage as int,
                ) && final(self)@ == #[trigger] after_picks(old(self)@, picks, appointment_type)
                    && fill_has_ended(
                    final(self)@,
                    picks.len() as int,
                    from,
                    to,
                    appointment_type,
                    filled_percentage as int,
                ),
    {
        let total = count_working_cells(from, to);
        let end = to.calculate_end_time(appointment_type);
        let mut free = self.free_slots_between(from, end, appointment_type);
        let ghost mut picks: Seq<Timestamp> = Seq::empty();
        let ghost ty = appointment_type;
        let ghost percent = filled_percentage as int;
        loop
            invariant_except_break
                may_go_on(self@, picks.len() as int, from, to, ty, percent),
                lists_exactly(instants(free@), free_start_test(self@, from@, end@, ty)),
            invariant
                self.wf(),
                in_range(from@),
                in_range(to@),
                ty == appointment_type,
                percent == filled_percentage as int,
                end@ == to@ + duration_seconds(ty),
                total == working_cells_between(from@, to@),
                is_fill_run(old(self)@, picks, from, to, ty, percent),
                self@ == after_picks(old(self)@, picks, ty),
            ensures
                fill_has_ended(self@, picks.len() as int, from, to, ty, percent),
            decreases free@.len(),
        {
            if free.len() == 0 {
                proof {
                    assert forall|t: int| !#[trigger] is_free_start(self@, from@, end@, ty, t) by {
                        assert(!instants(free@).contains(t));
                    }
                }
                break;
            }
            let index = random_index(free.len());
            let ghost before = self@;
            let ghost earlier = picks;
            let done = self.fill_turn(
                from,
                to,
                appointment_type,
                filled_percentage,
                total,
                &free,
                index,
            );
            proof {
                let pick = free@[index as int];
                picks = earlier.push(pick);
                assert(instants(free@)[index as int] == pick@);
                assert(instants(free@).contains(pick@));
                assert(picks.drop_last() =~= earlier);
                assert(picks.take(earlier.len() as int) =~= earlier);
                assert forall|i: int| 0 <= i < picks.len() implies may_go_on(
                    #[trigger] after_picks(old(self)@, picks.take(i), ty),
                    i,
                    from,
                    to,
                    ty,
                    percent,
                ) && is_free_start(
                    after_picks(old(self)@, picks.take(i), ty),
                    from@,
                    to@ + duration_seconds(ty),
                    ty,
                    picks[i]@,
                ) by {
                    if i < earlier.len() {
                        assert(picks.take(i) =~= earlier.take(i));
                    }
                }
            }
            if done {
                break;
            }
            let next_free = self.free_slots_between(from, end, appointment_type);
            proof {
                let pick = free@[index as int];
                assert(is_free_cell_within(before, from@, end@, pick@ + 900 * 0));
                lemma_booking_takes_a_free_start(before, from@, end@, ty, pick);
                lemma_strict_sublisting_is_shorter(
                    instants(free@),
                    instants(next_free@),
                    pick@,
                );
            }
            free = next_free;
        }
    }
}

/// An appointment can be booked at each of its free starts: it stays
/// within working time and shares no time with a booked appointment.
pub proof fn lemma_free_start_can_be_booked(
    booked: Seq<DoctorsAppointment>,
    from: int,
    to: int,
    ty: AppointmentType,
    start: Timestamp,
)
    requires
        is_free_start(booked, from, to, ty, start@),
    ensures
        booking_outcome(booked, appointment_at(start, ty)).is_ok(),
{
    let appointment = appointment_at(start, ty);
    assert forall|k: int| 0 <= k < slot_count(ty) implies is_working_cell(
        #[trigger] appointment.slots()[k],
    ) by {
        assert(is_free_cell_within(booked, from, to, start@ + 900 * k));
    }
    if overlaps_booked(booked, appointment) {
        let i = choose|i: int|
            0 <= i < booked.len() && (#[trigger] booked[i]).meets(
                appointment.start(),
                appointment.end(),
            );
        let first_shared = if booked[i].start() < start@ {
            start@
        } else {
            booked[i].start()
        };
        let k = (first_shared - start@) / 900;
        assert(0 <= k < slot_count(ty));
        assert(is_free_cell_within(booked, from, to, start@ + 900 * k));
        assert(booked[i].meets(start@ + 900 * k, start@ + 900 * k + 900));
    }
}

/// Once an appointment is booked at a free start, that start is free no
/// more, and no start is free that was not free before.
pub proof fn lemma_booking_takes_a_free_start(
    booked: Seq<DoctorsAppointment>,
    from: int,
    to: int,
    ty: AppointmentType,
    pick: Timestamp,
)
    requires
        is_schedule(booked),
        appointment_at(pick, ty).representable(),
        is_free_start(booked, from, to, ty, pick@),
    ensures
        !is_free_start(booked_with(booked, appointment_at(pick, ty)), from, to, ty, pick@),
        forall|t: int|
            is_free_start(booked_with(booked, appointment_at(pick, ty)), from, to, ty, t)
                ==> is_free_start(booked, from, to, ty, t),
{
    let appointment = appointment_at(pick, ty);
    let after = booked_with(booked, appointment);
    lemma_free_start_can_be_booked(booked, from, to, ty, pick);
    lemma_booked_with(booked, appointment);
    assert(after.contains(appointment));
    let place = choose|i: int| 0 <= i < after.len() && after[i] == appointment;
    assert(after[place].meets(pick@ + 900 * 0, pick@ + 900 * 0 + 900));
    assert(!is_free_cell_within(after, from, to, pick@ + 900 * 0));
    assert forall|t: int| is_free_start(after, from, to, ty, t) implies is_free_start(
        booked,
        from,
        to,
        ty,
        t,
    ) by {
        assert forall|k: int| 0 <= k < slot_count(ty) implies #[trigger] is_free_cell_within(
            booked,
            from,
            to,
            t + 900 * k,
        ) by {
            assert(is_free_cell_within(after, from, to, t + 900 * k));
            if span_is_taken(booked, t + 900 * k, t + 900 * k + 900) {
                let i = choose|i: int|
                    0 <= i < booked.len() && (#[trigger] booked[i]).meets(
                        t + 900 * k,
                        t + 900 * k + 900,
                    );
                assert(booked.contains(booked[i]));
                assert(after.contains(booked[i]));
                let j = choose|j: int| 0 <= j < after.len() && after[j] == booked[i];
                assert(after[j].meets(t + 900 * k, t + 900 * k + 900));
            }
        }
    }
}

/// The cells that two runs of appointments cover together are the cells
/// of the one and the cells of the other.
pub proof fn lemma_cell_total_adds_up(first: Seq<DoctorsAppointment>, second: Seq<DoctorsAppointment>)
    ensures
        cell_total(first + second) == cell_total(first) + cell_total(second),
    decreases second.len(),
{
    if second.len() == 0 {
        assert(first + second =~= first);
    } else {
        assert((first + second).drop_last() =~= first + second.drop_last());
        assert((first + second).last() == second.last());
        lemma_cell_total_adds_up(first, second.drop_last());
    }
}

/// Putting an appointment into a schedule, at whatever place, adds its
/// cells to the occupied cells of a window in which it starts, and nothing
/// to those of another window.
pub proof fn lemma_occupied_cells_after_insert(
    booked: Seq<DoctorsAppointment>,
    place: int,
    appointment: DoctorsAppointment,
    from: Timestamp,
    to: Timestamp,
)
    requires
        0 <= place <= booked.len(),
    ensures
        occupied_cells(booked.insert(place, appointment), from, to) == occupied_cells(
            booked,
            from,
            to,
        ) + if from@ <= appointment.start() <= to@ {
            slot_count(appointment.appointment_type)
        } else {
            0
        },
{
    let test = window_test(Some(from), Some(to));
    let head = booked.subrange(0, place);
    let tail = booked.subrange(place, booked.len() as int);
    let one = seq![appointment];
    assert(booked =~= head + tail);
    assert(booked.insert(place, appointment) =~= (head + one) + tail);
    Seq::filter_distributes_over_add(head, tail, test);
    Seq::filter_distributes_over_add(head + one, tail, test);
    Seq::filter_distributes_over_add(head, one, test);
    lemma_cell_total_adds_up(head.filter(test), tail.filter(test));
    lemma_cell_total_adds_up(head.filter(test) + one.filter(test), tail.filter(test));
    lemma_cell_total_adds_up(head.filter(test), one.filter(test));
    reveal_with_fuel(Seq::filter, 2);
    assert(one.drop_last() =~= Seq::<DoctorsAppointment>::empty());
    assert(one.last() == appointment);
    assert(one.drop_last().filter(test) =~= Seq::<DoctorsAppointment>::empty());
    assert(cell_total(one.drop_last()) == 0);
    if test(appointment) {
        assert(one.filter(test) =~= one);
        assert(cell_total(one) == slot_count(appointment.appointment_type));
    } else {
        assert(one.filter(test) =~= Seq::<DoctorsAppointment>::empty());
        assert(cell_total(one.filter(test)) == 0);
    }
}

/// Where the first booking of a filling does not cover more than the
/// target, the filling never does: after one booking or more, the share of
/// the working cells of the window that is occupied is at most `percent`
/// per cent.
pub proof fn lemma_fill_keeps_to_target(
    before: Seq<DoctorsAppointment>,
    picks: Seq<Timestamp>,
    from: Timestamp,
    to: Timestamp,
    ty: AppointmentType,
    percent: int,
)
    requires
        is_schedule(before),
        in_range(to@),
        is_fill_run(before, picks, from, to, ty, percent),
        picks.len() > 0,
        (occupied_cells(before, from, to) + slot_count(ty)) * 100 <= percent
            * working_cells_between(from@, to@),
    ensures
        occupied_cells(after_picks(before, picks, ty), from, to) * 100 <= percent
            * working_cells_between(from@, to@),
{
    let turns = picks.len() - 1;
    let earlier = picks.drop_last();
    assert(picks.take(turns) =~= earlier);
    let reached = after_picks(before, earlier, ty);
    assert(may_go_on(after_picks(before, picks.take(turns), ty), turns, from, to, ty, percent));
    let appointment = appointment_at(picks.last(), ty);
    lemma_fill_run_replays(before, picks, from, to, ty, percent, turns);
    lemma_place_of_bounds(reached, appointment.start());
    lemma_occupied_cells_after_insert(
        reached,
        place_of(reached, appointment.start()),
        appointment,
        from,
        to,
    );
    if turns == 0 {
        assert(reached == before);
    }
}

/// The appointments that a filling books can be booked again, in the order
/// in which they were booked, into an empty calendar: each passes the
/// tests of a booking against those booked again before it. After `turns`
/// turns, the schedule of the filling and the schedule booked again are
/// both valid, and the first holds all that the second holds.
pub proof fn lemma_fill_run_replays(
    before: Seq<DoctorsAppointment>,
    picks: Seq<Timestamp>,
    from: Timestamp,
    to: Timestamp,
    ty: AppointmentType,
    percent: int,
    turns: int,
)
    requires
        is_schedule(before),
        in_range(to@),
        is_fill_run(before, picks, from, to, ty, percent),
        0 <= turns <= picks.len(),
    ensures
        is_schedule(after_picks(before, picks.take(turns), ty)),
        is_schedule(after_picks(Seq::empty(), picks.take(turns), ty)),
        forall|a: DoctorsAppointment|
            after_picks(Seq::empty(), picks.take(turns), ty).contains(a) ==> after_picks(
                before,
                picks.take(turns),
                ty,
            ).contains(a),
        forall|i: int|
            0 <= i < turns ==> booking_outcome(
                #[trigger] after_picks(Seq::empty(), picks.take(i), ty),
                appointment_at(picks[i], ty),
            ).is_ok(),
    decreases turns,
{
    let nothing = Seq::<DoctorsAppointment>::empty();
    if turns == 0 {
        assert(picks.take(0) =~= Seq::<Timestamp>::empty());
        assert(after_picks(nothing, picks.take(0), ty) == nothing);
        assert(after_picks(before, picks.take(0), ty) == before);
        assert forall|a: DoctorsAppointment| !nothing.contains(a) by {
            if nothing.contains(a) {
                let i = choose|i: int| 0 <= i < nothing.len() && nothing[i] == a;
            }
        }
    } else {
        let last = turns - 1;
        lemma_fill_run_replays(before, picks, from, to, ty, percent, last);
        let filled = after_picks(before, picks.take(last), ty);
        let again = after_picks(nothing, picks.take(last), ty);
        let appointment = appointment_at(picks[last], ty);
        let to_end = to@ + duration_seconds(ty);
        assert(picks.take(turns).drop_last() =~= picks.take(last));
        assert(picks.take(turns).last() == picks[last]);
        assert(is_free_start(filled, from@, to_end, ty, picks[last]@));
        assert(is_free_cell_within(filled, from@, to_end, picks[last]@ + 900 * 0));
        lemma_free_start_can_be_booked(filled, from@, to_end, ty, picks[last]);
        lemma_booked_with(filled, appointment);
        if overlaps_booked(again, appointment) {
            let i = choose|i: int|
                0 <= i < again.len() && (#[trigger] again[i]).meets(
                    appointment.start(),
                    appointment.end(),
                );
            assert(again.contains(again[i]));
            assert(filled.contains(again[i]));
            let j = choose|j: int| 0 <= j < filled.len() && filled[j] == again[i];
            assert(filled[j].meets(appointment.start(), appointment.end()));
        }
        lemma_booked_with(again, appointment);
        assert(after_picks(before, picks.take(turns), ty) == booked_with(filled, appointment));
        assert(after_picks(nothing, picks.take(turns), ty) == booked_with(again, appointment));
        assert forall|a: DoctorsAppointment|
            booked_with(again, appointment).contains(a) implies booked_with(
            filled,
            appointment,
        ).contains(a) by {
            if a != appointment {
                assert(again.contains(a));
                assert(filled.contains(a));
            }
        }
    }
}

} // verus!
