//! Stretching tap notes into hold notes: the two passes over the notes and
//! the two entry points, with a fixed gap and with a gap taken from the
//! chart's timing points.

use crate::chart::{Chart, ChartView, Note, NoteKind, LANE_COUNT};
use crate::conversion::{
    applied, candidate_duration, converted_notes, earlier_holds_clear, gap_kept, holds_disjoint,
    lemma_applied_len, lemma_conversion_guarantees, lemma_occupancy_len, lemma_plan_applied,
    lemma_planned_in_range, next_in_lane, occupancy, planned, threshold_kept, Transformation,
};
use crate::order::{
    lemma_sort_len, lemma_sort_ordered, ordered_by_start, sort_by_start, sort_notes,
};
use crate::timing::{compute_divisor_gap, divisor_gap, BeatDivisor};
use vstd::prelude::*;

verus! {

/// Finds the first note at or behind `from` that lies in `lane`.
pub fn find_next_in_lane(notes: &Vec<Note>, lane: usize, from: usize) -> (next: usize)
    requires
        from <= notes.len(),
    ensures
        next == next_in_lane(notes@, lane, from as int),
        from <= next <= notes.len(),
{
    let mut j: usize = from;
    while j < notes.len()
        invariant
            from <= j <= notes.len(),
            next_in_lane(notes@, lane, from as int) == next_in_lane(notes@, lane, j as int),
        decreases notes.len() - j,
    {
        if notes[j].lane() == lane {
            return j;
        }
        j += 1;
    }
    j
}

/// For every note the index of the next note of its lane, or the number of
/// notes where it is the last of its lane. One walk from the last note to the
/// first finds them all.
pub fn next_in_lane_table(notes: &Vec<Note>) -> (table: Vec<usize>)
    ensures
        table.len() == notes.len(),
        forall|i: int|
            0 <= i < notes.len() ==> table[i] == next_in_lane(notes@, notes[i].lane(), i + 1),
{
    let n: usize = notes.len();
    let mut table: Vec<usize> = vec![n; n];
    let mut latest: [usize; LANE_COUNT] = [n, n, n, n];
    let mut i: usize = n;
    while i > 0
        invariant
            i <= n == notes.len() == table.len(),
            forall|lane: int|
                0 <= lane < LANE_COUNT ==> latest@[lane] == next_in_lane(
                    notes@,
                    lane as usize,
                    i as int,
                ),
            forall|k: int|
                i <= k < n ==> table[k] == next_in_lane(notes@, notes[k].lane(), k + 1),
        decreases i,
    {
        i -= 1;
        let lane: usize = notes[i].lane();
        table.set(i, latest[lane]);
        latest[lane] = i;
    }
    table
}

/// The length that a hold placed on note `i` gets, given the index `next` of
/// the next note of its lane.
fn duration_until(notes: &Vec<Note>, gap: u64, i: usize, next: usize) -> (duration: u64)
    requires
        i < notes.len(),
        next == next_in_lane(notes@, notes[i as int].lane(), i + 1),
    ensures
        duration == candidate_duration(notes@, gap, i as int),
{
    if next < notes.len() {
        let room: i128 = notes[next].start as i128 - notes[i].start as i128 - gap as i128;
        if room < 0 {
            0
        } else {
            room as u64
        }
    } else {
        gap
    }
}

/// Computes the length that a hold placed on note `i` gets.
pub fn compute_candidate_duration(notes: &Vec<Note>, gap: u64, i: usize) -> (duration: u64)
    requires
        i < notes.len(),
    ensures
        duration == candidate_duration(notes@, gap, i as int),
{
    let next: usize = find_next_in_lane(notes, notes[i].lane(), i + 1);
    duration_until(notes, gap, i, next)
}

/// First pass: scans the notes in order and records which taps become holds,
/// and of what length. The notes themselves are left as they are, so that the
/// next note of a lane is always found among the kinds that the scan started
/// with.
pub fn plan_holds(notes: &Vec<Note>, gap: u64, min_duration: u64) -> (plan: Vec<Transformation>)
    ensures
        plan@ == planned(notes@, gap, min_duration, notes.len() as int),
{
    let next_in_lane_of: Vec<usize> = next_in_lane_table(notes);
    let mut plan: Vec<Transformation> = Vec::new();
    let mut lane_ends: [i128; LANE_COUNT] = [0, 0, 0, 0];
    let mut i: usize = 0;
    while i < notes.len()
        invariant
            i <= notes.len() == next_in_lane_of.len(),
            forall|k: int|
                0 <= k < notes.len() ==> next_in_lane_of[k] == next_in_lane(
                    notes@,
                    notes[k].lane(),
                    k + 1,
                ),
            plan@ == planned(notes@, gap, min_duration, i as int),
            forall|lane: int|
                0 <= lane < LANE_COUNT ==> lane_ends@[lane] == occupancy(
                    notes@,
                    gap,
                    min_duration,
                    i as int,
                )[lane],
        decreases notes.len() - i,
    {
        let note = notes[i];
        if note.is_tap() {
            let lane: usize = note.lane();
            if note.start as i128 >= lane_ends[lane] {
                let duration: u64 = duration_until(notes, gap, i, next_in_lane_of[i]);
                if duration > min_duration && note.start as i128 + duration as i128
                    > lane_ends[lane] {
                    plan.push(Transformation { index: i, duration });
                    lane_ends[lane] = note.start as i128 + duration as i128;
                }
            }
        }
        proof {
            lemma_occupancy_len(notes@, gap, min_duration, i as int);
        }
        i += 1;
    }
    plan
}

/// Second pass: retypes the notes that the plan names.
pub fn apply_plan(notes: &mut Vec<Note>, plan: &Vec<Transformation>)
    requires
        forall|k: int| 0 <= k < plan.len() ==> plan[k].index < old(notes).len(),
    ensures
        final(notes)@ == applied(old(notes)@, plan@),
{
    let mut k: usize = 0;
    while k < plan.len()
        invariant
            k <= plan.len(),
            notes.len() == old(notes).len(),
            forall|m: int| 0 <= m < plan.len() ==> plan[m].index < notes.len(),
            notes@ == applied(old(notes)@, plan@.take(k as int)),
        decreases plan.len() - k,
    {
        let change = plan[k];
        let note = notes[change.index];
        if note.is_tap() {
            notes.set(
                change.index,
                Note {
                    start: note.start,
                    kind: NoteKind::Hold { position: note.position(), duration: change.duration },
                },
            );
        }
        proof {
            assert(plan@.take(k + 1).drop_last() =~= plan@.take(k as int));
            lemma_applied_len(old(notes)@, plan@.take(k as int));
        }
        k += 1;
    }
    assert(plan@.take(plan.len() as int) =~= plan@);
}

/// The suffix that `full_ln` appends to a chart's label.
pub open spec fn full_ln_marker() -> Seq<char> {
    " Full LN"@
}

/// The chart after the conversion: its notes in order of start time and
/// converted, its label with the marker appended, its timing points as before.
pub open spec fn converted(chart: ChartView, gap: u64, min_duration: u64) -> ChartView {
    ChartView {
        notes: converted_notes(sort_by_start(chart.notes), gap, min_duration),
        timing_points: chart.timing_points,
        label: chart.label + full_ln_marker(),
    }
}

/// What the conversion of a whole chart keeps: the number of notes, their
/// order by start time, the threshold, the gap, and holds that are disjoint
/// as far as the holds that the chart held before allow.
pub proof fn lemma_converted_chart(chart: ChartView, gap: u64, min_duration: u64)
    ensures
        converted(chart, gap, min_duration).notes.len() == chart.notes.len(),
        ordered_by_start(converted(chart, gap, min_duration).notes),
        threshold_kept(
            sort_by_start(chart.notes),
            converted(chart, gap, min_duration).notes,
            gap,
            min_duration,
        ),
        gap_kept(sort_by_start(chart.notes), converted(chart, gap, min_duration).notes, gap),
        holds_disjoint(converted(chart, gap, min_duration).notes) <==> earlier_holds_clear(
            sort_by_start(chart.notes),
            converted(chart, gap, min_duration).notes,
        ),
{
    lemma_sort_len(chart.notes);
    lemma_sort_ordered(chart.notes);
    lemma_conversion_guarantees(sort_by_start(chart.notes), gap, min_duration);
}

/// Turns tap notes into hold notes. The notes are put in order of start time;
/// then each tap whose lane is free becomes a hold that ends `gap` ticks
/// before the next note of its lane (or lasts `gap` ticks where it is the
/// last of its lane), unless that hold would not be longer than
/// `min_duration`. The label receives the suffix `" Full LN"`.
pub fn full_ln(chart: &mut Chart, gap: u64, min_duration: u64)
    ensures
        final(chart)@ == converted(old(chart)@, gap, min_duration),
        final(chart).timing_points@ == old(chart).timing_points@,
        final(chart).label@ == old(chart).label@ + full_ln_marker(),
        final(chart).notes.len() == old(chart).notes.len(),
        ordered_by_start(final(chart).notes@),
        threshold_kept(
            sort_by_start(old(chart).notes@),
            final(chart).notes@,
            gap,
            min_duration,
        ),
        gap_kept(sort_by_start(old(chart).notes@), final(chart).notes@, gap),
        holds_disjoint(final(chart).notes@) <==> earlier_holds_clear(
            sort_by_start(old(chart).notes@),
            final(chart).notes@,
        ),
{
    sort_notes(&mut chart.notes);
    let plan: Vec<Transformation> = plan_holds(&chart.notes, gap, min_duration);
    proof {
        lemma_planned_in_range(chart.notes@, gap, min_duration, chart.notes.len() as int);
        lemma_plan_applied(chart.notes@, gap, min_duration);
        lemma_converted_chart(old(chart)@, gap, min_duration);
    }
    apply_plan(&mut chart.notes, &plan);
    chart.label.append(" Full LN");
}

/// The chart after the conversion in beat-divisor mode: the gap is the
/// divisor's fraction of the longest beat, and the threshold is
/// `warn_duration`, or the gap where none is given.
pub open spec fn converted_by_divisor(
    chart: ChartView,
    beat_divisor: BeatDivisor,
    warn_duration: Option<u64>,
) -> ChartView {
    let gap = divisor_gap(chart.timing_points, beat_divisor);
    let min_duration = match warn_duration {
        Some(duration) => duration,
        None => gap,
    };
    converted(chart, gap, min_duration)
}

/// Turns tap notes into hold notes as `full_ln` does, with a gap of
/// `beat_divisor` beats of the chart's longest beat. Holds that would not be
/// longer than `warn_duration` are not placed; without a `warn_duration` the
/// gap itself is the threshold.
pub fn full_ln_beat_divisor(
    chart: &mut Chart,
    beat_divisor: BeatDivisor,
    warn_duration: Option<u64>,
)
    requires
        old(chart).timing_points.len() > 0,
        beat_divisor.denominator > 0,
    ensures
        final(chart)@ == converted_by_divisor(old(chart)@, beat_divisor, warn_duration),
{
    let gap: u64 = compute_divisor_gap(&chart.timing_points, beat_divisor);
    let min_duration: u64 = match warn_duration {
        Some(duration) => duration,
        None => gap,
    };
    full_ln(chart, gap, min_duration);
}

} // verus!
