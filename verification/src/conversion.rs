//! The conversion of tap notes into hold notes, as a function of the notes.
//!
//! The notes are walked in order. For each lane the walk keeps the tick at
//! which the hold placed last in that lane ends. A tap note whose lane is
//! free becomes a hold that stops `gap` ticks before the next note of its
//! lane, provided that the hold would be longer than a threshold. The walk
//! only records what is to change; the changes are carried out afterwards.

use crate::chart::{Note, NoteKind, LANE_COUNT};
use crate::order::ordered_by_start;
use vstd::prelude::*;

verus! {

/// Index of the first note at or behind `from` that lies in `lane`, or
/// `notes.len()` where no such note exists.
pub open spec fn next_in_lane(notes: Seq<Note>, lane: usize, from: int) -> int
    decreases notes.len() - from,
{
    if from < 0 || from >= notes.len() {
        notes.len() as int
    } else if notes[from].lane() == lane {
        from
    } else {
        next_in_lane(notes, lane, from + 1)
    }
}

/// `next_in_lane` finds a note of the lane, and none lies between `from` and it.
pub proof fn lemma_next_in_lane(notes: Seq<Note>, lane: usize, from: int)
    requires
        0 <= from <= notes.len(),
    ensures
        from <= next_in_lane(notes, lane, from) <= notes.len(),
        next_in_lane(notes, lane, from) < notes.len() ==> notes[next_in_lane(
            notes,
            lane,
            from,
        )].lane() == lane,
        forall|k: int| from <= k < next_in_lane(notes, lane, from) ==> notes[k].lane() != lane,
    decreases notes.len() - from,
{
    if from < notes.len() && notes[from].lane() != lane {
        lemma_next_in_lane(notes, lane, from + 1);
    }
}

/// The length that a hold placed on note `i` gets: what is left of the time
/// to the next note of its lane once `gap` is taken off, never less than
/// zero; `gap` itself where the note is the last of its lane.
pub open spec fn candidate_duration(notes: Seq<Note>, gap: u64, i: int) -> int {
    let next = next_in_lane(notes, notes[i].lane(), i + 1);
    if next < notes.len() {
        let room = notes[next].start - notes[i].start - gap;
        if room < 0 {
            0
        } else {
            room
        }
    } else {
        gap as int
    }
}

/// A candidate duration is never negative and fits 64 bits.
pub proof fn lemma_candidate_duration_range(notes: Seq<Note>, gap: u64, i: int)
    requires
        0 <= i < notes.len(),
    ensures
        0 <= candidate_duration(notes, gap, i) <= u64::MAX,
{
    lemma_next_in_lane(notes, notes[i].lane(), i + 1);
}

/// Whether a hold of length `duration` is placed on `note`, given the tick
/// `lane_end` at which the hold placed last in its lane ends: the note is a
/// tap, its lane is free when it starts, the hold is longer than
/// `min_duration`, and the hold ends behind `lane_end`.
pub open spec fn places_hold(note: Note, duration: int, min_duration: u64, lane_end: int) -> bool {
    &&& note.is_tap()
    &&& note.start >= lane_end
    &&& duration > min_duration
    &&& note.start + duration > lane_end
}

/// The lane occupancy timeline after the first `k` notes: for each lane the
/// tick at which the hold placed last in it ends, zero while none is placed.
pub open spec fn occupancy(notes: Seq<Note>, gap: u64, min_duration: u64, k: int) -> Seq<int>
    decreases k,
{
    if k <= 0 {
        Seq::new(LANE_COUNT as nat, |lane: int| 0int)
    } else {
        let before = occupancy(notes, gap, min_duration, k - 1);
        let note = notes[k - 1];
        let duration = candidate_duration(notes, gap, k - 1);
        if places_hold(note, duration, min_duration, before[note.lane() as int]) {
            before.update(note.lane() as int, note.start + duration)
        } else {
            before
        }
    }
}

/// The occupancy timeline has one entry for each lane.
pub proof fn lemma_occupancy_len(notes: Seq<Note>, gap: u64, min_duration: u64, k: int)
    ensures
        occupancy(notes, gap, min_duration, k).len() == LANE_COUNT,
    decreases k,
{
    if k > 0 {
        lemma_occupancy_len(notes, gap, min_duration, k - 1);
    }
}

/// Whether the conversion turns note `i` into a hold.
pub open spec fn converts(notes: Seq<Note>, gap: u64, min_duration: u64, i: int) -> bool {
    &&& 0 <= i < notes.len()
    &&& places_hold(
        notes[i],
        candidate_duration(notes, gap, i),
        min_duration,
        occupancy(notes, gap, min_duration, i)[notes[i].lane() as int],
    )
}

/// `note` as a hold of the given length at the same start and position.
pub open spec fn as_hold(note: Note, duration: int) -> Note {
    Note {
        start: note.start,
        kind: NoteKind::Hold { position: note.position(), duration: duration as u64 },
    }
}

/// The notes after the conversion: each note that `converts` selects is a
/// hold of its candidate duration, every other note is unchanged.
pub open spec fn converted_notes(notes: Seq<Note>, gap: u64, min_duration: u64) -> Seq<Note> {
    Seq::new(
        notes.len(),
        |i: int|
            if converts(notes, gap, min_duration, i) {
                as_hold(notes[i], candidate_duration(notes, gap, i))
            } else {
                notes[i]
            },
    )
}

/// A pending change of one note: the tap at `index` becomes a hold of
/// length `duration`.
#[derive(Clone, Copy, Debug, PartialEq, Eq)]
pub struct Transformation {
    /// Index of the note in the note list.
    pub index: usize,
    /// Length of the hold in ticks.
    pub duration: u64,
}

/// The transformations that the scan of the first `k` notes records, in order
/// of index.
pub open spec fn planned(notes: Seq<Note>, gap: u64, min_duration: u64, k: int) -> Seq<
    Transformation,
>
    decreases k,
{
    if k <= 0 {
        Seq::empty()
    } else if converts(notes, gap, min_duration, k - 1) {
        planned(notes, gap, min_duration, k - 1).push(
            Transformation {
                index: (k - 1) as usize,
                duration: candidate_duration(notes, gap, k - 1) as u64,
            },
        )
    } else {
        planned(notes, gap, min_duration, k - 1)
    }
}

/// Every planned transformation names one of the notes that were scanned.
pub proof fn lemma_planned_in_range(notes: Seq<Note>, gap: u64, min_duration: u64, k: int)
    requires
        k <= notes.len() <= usize::MAX,
    ensures
        forall|m: int|
            0 <= m < planned(notes, gap, min_duration, k).len() ==> (#[trigger] planned(
                notes,
                gap,
                min_duration,
                k,
            )[m]).index < k,
    decreases k,
{
    if k > 0 {
        lemma_planned_in_range(notes, gap, min_duration, k - 1);
        let shorter = planned(notes, gap, min_duration, k - 1);
        let plan = planned(notes, gap, min_duration, k);
        assert forall|m: int| 0 <= m < plan.len() implies (#[trigger] plan[m]).index < k by {
            if m < shorter.len() {
                assert(plan[m] == shorter[m]);
            }
        }
    }
}

/// The notes with one transformation carried out: the tap at its index is a
/// hold of its duration. A note that is no tap, or an index behind the last
/// note, leaves the notes unchanged.
pub open spec fn apply_one(notes: Seq<Note>, change: Transformation) -> Seq<Note> {
    if change.index < notes.len() && notes[change.index as int].is_tap() {
        notes.update(
            change.index as int,
            as_hold(notes[change.index as int], change.duration as int),
        )
    } else {
        notes
    }
}

/// The notes with every transformation of `plan` carried out, first to last.
pub open spec fn applied(notes: Seq<Note>, plan: Seq<Transformation>) -> Seq<Note>
    decreases plan.len(),
{
    if plan.len() == 0 {
        notes
    } else {
        apply_one(applied(notes, plan.drop_last()), plan.last())
    }
}

/// Carrying out transformations changes no note count.
pub proof fn lemma_applied_len(notes: Seq<Note>, plan: Seq<Transformation>)
    ensures
        applied(notes, plan).len() == notes.len(),
    decreases plan.len(),
{
    if plan.len() > 0 {
        lemma_applied_len(notes, plan.drop_last());
    }
}

/// The notes with the conversion carried out on the first `k` of them only.
spec fn converted_prefix(notes: Seq<Note>, gap: u64, min_duration: u64, k: int) -> Seq<Note> {
    Seq::new(
        notes.len(),
        |i: int|
            if i < k && converts(notes, gap, min_duration, i) {
                as_hold(notes[i], candidate_duration(notes, gap, i))
            } else {
                notes[i]
            },
    )
}

/// Carrying out the plan of the first `k` notes converts exactly those of
/// them that `converts` selects.
proof fn lemma_applied_prefix(notes: Seq<Note>, gap: u64, min_duration: u64, k: int)
    requires
        0 <= k <= notes.len() <= usize::MAX,
    ensures
        applied(notes, planned(notes, gap, min_duration, k)) == converted_prefix(
            notes,
            gap,
            min_duration,
            k,
        ),
    decreases k,
{
    let target = converted_prefix(notes, gap, min_duration, k);
    if k == 0 {
        assert(target =~= notes);
    } else {
        lemma_applied_prefix(notes, gap, min_duration, k - 1);
        let shorter = planned(notes, gap, min_duration, k - 1);
        let earlier = converted_prefix(notes, gap, min_duration, k - 1);
        if converts(notes, gap, min_duration, k - 1) {
            let duration = candidate_duration(notes, gap, k - 1);
            let change = Transformation { index: (k - 1) as usize, duration: duration as u64 };
            lemma_candidate_duration_range(notes, gap, k - 1);
            assert(shorter.push(change).drop_last() =~= shorter);
            assert(earlier[k - 1] == notes[k - 1]);
            assert(apply_one(earlier, change) =~= target);
        } else {
            assert(earlier =~= target);
        }
    }
}

/// The two passes together give the converted notes: carrying out the plan
/// of the whole list turns each selected tap into its hold.
pub proof fn lemma_plan_applied(notes: Seq<Note>, gap: u64, min_duration: u64)
    requires
        notes.len() <= usize::MAX,
    ensures
        applied(notes, planned(notes, gap, min_duration, notes.len() as int)) == converted_notes(
            notes,
            gap,
            min_duration,
        ),
{
    lemma_applied_prefix(notes, gap, min_duration, notes.len() as int);
    assert(converted_prefix(notes, gap, min_duration, notes.len() as int) =~= converted_notes(
        notes,
        gap,
        min_duration,
    ));
}

/// The conversion keeps every note's start and lane, keeps every hold as it
/// is, and gives each converted tap its candidate duration.
pub proof fn lemma_converted_note(notes: Seq<Note>, gap: u64, min_duration: u64, i: int)
    requires
        0 <= i < notes.len(),
    ensures
        converted_notes(notes, gap, min_duration).len() == notes.len(),
        converted_notes(notes, gap, min_duration)[i].start == notes[i].start,
        converted_notes(notes, gap, min_duration)[i].position() == notes[i].position(),
        converted_notes(notes, gap, min_duration)[i].lane() == notes[i].lane(),
        notes[i].is_hold() ==> converted_notes(notes, gap, min_duration)[i] == notes[i],
        converts(notes, gap, min_duration, i) ==> notes[i].is_tap() && converted_notes(
            notes,
            gap,
            min_duration,
        )[i].is_hold() && converted_notes(notes, gap, min_duration)[i].duration()
            == candidate_duration(notes, gap, i),
        !converts(notes, gap, min_duration, i) ==> converted_notes(notes, gap, min_duration)[i]
            == notes[i],
{
    lemma_candidate_duration_range(notes, gap, i);
}

/// Threshold: a tap whose candidate duration is not above `min_duration`
/// stays the tap it was, and every hold that the conversion places is longer
/// than `min_duration`.
pub proof fn lemma_threshold_respected(notes: Seq<Note>, gap: u64, min_duration: u64, i: int)
    requires
        0 <= i < notes.len(),
        notes[i].is_tap(),
    ensures
        candidate_duration(notes, gap, i) <= min_duration ==> converted_notes(
            notes,
            gap,
            min_duration,
        )[i] == notes[i],
        converted_notes(notes, gap, min_duration)[i].is_hold() ==> converted_notes(
            notes,
            gap,
            min_duration,
        )[i].duration() > min_duration,
{
    lemma_converted_note(notes, gap, min_duration, i);
}

/// Gap: a hold that the conversion places ends exactly `gap` ticks before the
/// next note of its lane starts, where the lane has a next note.
pub proof fn lemma_hold_ends_before_next(notes: Seq<Note>, gap: u64, min_duration: u64, i: int)
    requires
        converts(notes, gap, min_duration, i),
        next_in_lane(notes, notes[i].lane(), i + 1) < notes.len(),
    ensures
        converted_notes(notes, gap, min_duration)[i].end() == converted_notes(
            notes,
            gap,
            min_duration,
        )[next_in_lane(notes, notes[i].lane(), i + 1)].start - gap,
{
    let next = next_in_lane(notes, notes[i].lane(), i + 1);
    lemma_next_in_lane(notes, notes[i].lane(), i + 1);
    lemma_converted_note(notes, gap, min_duration, i);
    lemma_converted_note(notes, gap, min_duration, next);
}

/// Gap, for every later note: in a list in order of start time, a hold that
/// the conversion places ends at least `gap` ticks before each later note of
/// its lane starts.
pub proof fn lemma_hold_clear_of_later_notes(
    notes: Seq<Note>,
    gap: u64,
    min_duration: u64,
    i: int,
    j: int,
)
    requires
        ordered_by_start(notes),
        converts(notes, gap, min_duration, i),
        i < j < notes.len(),
        notes[i].lane() == notes[j].lane(),
    ensures
        converted_notes(notes, gap, min_duration)[i].end() + gap <= converted_notes(
            notes,
            gap,
            min_duration,
        )[j].start,
{
    let next = next_in_lane(notes, notes[i].lane(), i + 1);
    lemma_next_in_lane(notes, notes[i].lane(), i + 1);
    assert(next <= j) by {
        if j < next {
            assert(notes[j].lane() != notes[i].lane());
        }
    }
    lemma_hold_ends_before_next(notes, gap, min_duration, i);
    lemma_converted_note(notes, gap, min_duration, next);
    lemma_converted_note(notes, gap, min_duration, j);
}

/// Whether no hold of a list in order of start time reaches past the start of
/// a later hold of its lane. A hold occupies its lane from its start to its
/// end; one that ends on the tick at which the next starts does not overlap it.
pub open spec fn holds_disjoint(notes: Seq<Note>) -> bool {
    forall|i: int, j: int|
        0 <= i < j < notes.len() && notes[i].is_hold() && notes[j].is_hold() && notes[i].lane()
            == notes[j].lane() ==> notes[i].end() <= notes[j].start
}

/// Whether every hold that `before` holds already ends no later than each
/// later note of its lane that is a hold in `after`.
pub open spec fn earlier_holds_clear(before: Seq<Note>, after: Seq<Note>) -> bool {
    forall|i: int, j: int|
        0 <= i < j < before.len() && j < after.len() && before[i].is_hold() && after[j].is_hold()
            && before[i].lane() == before[j].lane() ==> before[i].end() <= before[j].start
}

/// No overlap, on notes in order of start time: the holds of the converted
/// list are disjoint exactly when no hold that was there before reaches past
/// the start of a later hold of its lane. The holds that the conversion
/// places never reach past a later note.
pub proof fn lemma_converted_holds_disjoint(notes: Seq<Note>, gap: u64, min_duration: u64)
    requires
        ordered_by_start(notes),
    ensures
        holds_disjoint(converted_notes(notes, gap, min_duration)) <==> earlier_holds_clear(
            notes,
            converted_notes(notes, gap, min_duration),
        ),
{
    let after = converted_notes(notes, gap, min_duration);
    if earlier_holds_clear(notes, after) {
        assert forall|i: int, j: int|
            0 <= i < j < after.len() && after[i].is_hold() && after[j].is_hold() && after[i].lane()
                == after[j].lane() implies after[i].end() <= after[j].start by {
            lemma_converted_note(notes, gap, min_duration, i);
            lemma_converted_note(notes, gap, min_duration, j);
            if converts(notes, gap, min_duration, i) {
                lemma_hold_clear_of_later_notes(notes, gap, min_duration, i, j);
            }
        }
    }
    if holds_disjoint(after) {
        assert forall|i: int, j: int|
            0 <= i < j < notes.len() && j < after.len() && notes[i].is_hold() && after[j].is_hold()
                && notes[i].lane() == notes[j].lane() implies notes[i].end()
            <= notes[j].start by {
            lemma_converted_note(notes, gap, min_duration, i);
            lemma_converted_note(notes, gap, min_duration, j);
            assert(after[i].end() <= after[j].start);
        }
    }
}

/// Whether `after` honours the gap: each tap of `before` that is a hold in
/// `after` ends at least `gap` ticks before every later note of its lane
/// starts.
pub open spec fn gap_kept(before: Seq<Note>, after: Seq<Note>, gap: u64) -> bool {
    forall|i: int, j: int|
        0 <= i < j < before.len() && j < after.len() && before[i].is_tap() && after[i].is_hold()
            && before[i].lane() == before[j].lane() ==> after[i].end() + gap <= after[j].start
}

/// Whether `after` honours the threshold: a tap of `before` whose candidate
/// duration is not above `min_duration` is unchanged in `after`, and a tap
/// that is a hold in `after` has its candidate duration as its length.
pub open spec fn threshold_kept(
    before: Seq<Note>,
    after: Seq<Note>,
    gap: u64,
    min_duration: u64,
) -> bool {
    forall|i: int|
        #![trigger after[i]]
        0 <= i < before.len() && i < after.len() && before[i].is_tap() ==> {
            &&& candidate_duration(before, gap, i) <= min_duration ==> after[i] == before[i]
            &&& after[i].is_hold() ==> after[i].duration() == candidate_duration(before, gap, i)
                && after[i].duration() > min_duration
        }
}

/// What the conversion of notes in order of start time keeps: the order, the
/// threshold, the gap, and holds that are disjoint as far as the holds that
/// were there before allow.
pub proof fn lemma_conversion_guarantees(notes: Seq<Note>, gap: u64, min_duration: u64)
    requires
        ordered_by_start(notes),
    ensures
        converted_notes(notes, gap, min_duration).len() == notes.len(),
        ordered_by_start(converted_notes(notes, gap, min_duration)),
        threshold_kept(notes, converted_notes(notes, gap, min_duration), gap, min_duration),
        gap_kept(notes, converted_notes(notes, gap, min_duration), gap),
        holds_disjoint(converted_notes(notes, gap, min_duration)) <==> earlier_holds_clear(
            notes,
            converted_notes(notes, gap, min_duration),
        ),
{
    let after = converted_notes(notes, gap, min_duration);
    assert forall|i: int, j: int| 0 <= i <= j < after.len() implies after[i].start
        <= after[j].start by {
        lemma_converted_note(notes, gap, min_duration, i);
        lemma_converted_note(notes, gap, min_duration, j);
    }
    assert forall|i: int|
        #![trigger after[i]]
        0 <= i < notes.len() && i < after.len() && notes[i].is_tap() implies {
        &&& candidate_duration(notes, gap, i) <= min_duration ==> after[i] == notes[i]
        &&& after[i].is_hold() ==> after[i].duration() == candidate_duration(notes, gap, i)
            && after[i].duration() > min_duration
    } by {
        lemma_converted_note(notes, gap, min_duration, i);
    }
    assert forall|i: int, j: int|
        0 <= i < j < notes.len() && j < after.len() && notes[i].is_tap() && after[i].is_hold()
            && notes[i].lane() == notes[j].lane() implies after[i].end() + gap
        <= after[j].start by {
        lemma_converted_note(notes, gap, min_duration, i);
        lemma_hold_clear_of_later_notes(notes, gap, min_duration, i, j);
    }
    lemma_converted_holds_disjoint(notes, gap, min_duration);
}

} // verus!
