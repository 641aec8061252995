//! What holds of every conversion and every collapse of a chart.

use crate::chart::ChartView;
use crate::conversion::{earlier_holds_clear, holds_disjoint, lemma_converted_note};
use crate::ln::{converted, full_ln_marker, lemma_converted_chart};
use crate::noln::{collapsed, collapsed_notes};
use crate::order::{lemma_sort_len, lemma_sort_permutes, sort_by_start};
use vstd::prelude::*;

verus! {

/// No overlap, for a chart of taps: after the conversion no two holds of one
/// lane overlap.
pub proof fn lemma_taps_give_disjoint_holds(chart: ChartView, gap: u64, min_duration: u64)
    requires
        forall|i: int| 0 <= i < chart.notes.len() ==> chart.notes[i].is_tap(),
    ensures
        holds_disjoint(converted(chart, gap, min_duration).notes),
{
    let before = sort_by_start(chart.notes);
    let after = converted(chart, gap, min_duration).notes;
    lemma_sort_permutes(chart.notes);
    assert forall|i: int| 0 <= i < before.len() implies before[i].is_tap() by {
        before.to_multiset_ensures();
        chart.notes.to_multiset_ensures();
        assert(before.to_multiset().contains(before[i]));
        assert(chart.notes.contains(before[i]));
    }
    assert(earlier_holds_clear(before, after));
    lemma_converted_chart(chart, gap, min_duration);
}

/// Label: the conversion appends its marker to the label once, so a second
/// conversion leaves the label with the marker twice.
pub proof fn lemma_label_accumulates(
    chart: ChartView,
    gap: u64,
    min_duration: u64,
    next_gap: u64,
    next_min_duration: u64,
)
    ensures
        converted(chart, gap, min_duration).label == chart.label + full_ln_marker(),
        converted(chart, gap, min_duration).label.len() == chart.label.len() + 8,
        converted(
            converted(chart, gap, min_duration),
            next_gap,
            next_min_duration,
        ).label == chart.label + full_ln_marker() + full_ln_marker(),
{
    reveal_strlit(" Full LN");
}

/// Collapsing twice gives the notes that collapsing once gives.
pub proof fn lemma_collapse_idempotent(chart: ChartView)
    ensures
        collapsed(collapsed(chart)).notes == collapsed(chart).notes,
{
    assert(collapsed_notes(collapsed_notes(chart.notes)) =~= collapsed_notes(chart.notes));
}

/// A chart without holds keeps its notes when it is collapsed.
pub proof fn lemma_collapse_of_taps(chart: ChartView)
    requires
        forall|i: int| 0 <= i < chart.notes.len() ==> chart.notes[i].is_tap(),
    ensures
        collapsed(chart).notes == chart.notes,
{
    assert(collapsed_notes(chart.notes) =~= chart.notes);
}

/// Round trip: converting a chart and collapsing the result gives as many
/// notes as the chart had, all of them taps, at the starts and positions of
/// the chart's notes in order of start time.
pub proof fn lemma_round_trip(chart: ChartView, gap: u64, min_duration: u64)
    ensures
        collapsed(converted(chart, gap, min_duration)).notes.len() == chart.notes.len(),
        forall|i: int|
            0 <= i < chart.notes.len() ==> {
                let back = #[trigger] collapsed(converted(chart, gap, min_duration)).notes[i];
                &&& back.is_tap()
                &&& back.start == sort_by_start(chart.notes)[i].start
                &&& back.position() == sort_by_start(chart.notes)[i].position()
            },
{
    let before = sort_by_start(chart.notes);
    lemma_sort_len(chart.notes);
    assert forall|i: int| 0 <= i < chart.notes.len() implies {
        let back = #[trigger] collapsed(converted(chart, gap, min_duration)).notes[i];
        &&& back.is_tap()
        &&& back.start == before[i].start
        &&& back.position() == before[i].position()
    } by {
        lemma_converted_note(before, gap, min_duration, i);
    }
}

} // verus!
