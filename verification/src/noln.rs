//! Turning hold notes back into tap notes.

use crate::chart::{Chart, ChartView, Note, NoteKind};
use vstd::prelude::*;

verus! {

/// `note` without its length: a hold becomes a tap at the same start and
/// position with default combo settings, a tap stays as it is.
pub open spec fn collapsed_note(note: Note) -> Note {
    match note.kind {
        NoteKind::Hold { position, .. } => Note {
            start: note.start,
            kind: NoteKind::Tap { position, new_combo: false, combo_offset: 0 },
        },
        NoteKind::Tap { .. } => note,
    }
}

/// The notes with every hold collapsed, in the same order.
pub open spec fn collapsed_notes(notes: Seq<Note>) -> Seq<Note> {
    Seq::new(notes.len(), |i: int| collapsed_note(notes[i]))
}

/// The suffix that `noln` appends to a chart's label.
pub open spec fn no_ln_marker() -> Seq<char> {
    " No LN"@
}

/// The chart after the collapse: every hold a tap, the label with the marker
/// appended, the timing points as before.
pub open spec fn collapsed(chart: ChartView) -> ChartView {
    ChartView {
        notes: collapsed_notes(chart.notes),
        timing_points: chart.timing_points,
        label: chart.label + no_ln_marker(),
    }
}

/// Turns every hold note into a tap note at the hold's start and position,
/// dropping its length. The label receives the suffix `" No LN"`.
pub fn noln(chart: &mut Chart)
    ensures
        final(chart)@ == collapsed(old(chart)@),
{
    let mut i: usize = 0;
    while i < chart.notes.len()
        invariant
            i <= chart.notes.len() == old(chart).notes.len(),
            chart.timing_points == old(chart).timing_points,
            chart.label == old(chart).label,
            forall|k: int| 0 <= k < i ==> chart.notes@[k] == collapsed_note(old(chart).notes@[k]),
            forall|k: int| i <= k < chart.notes.len() ==> chart.notes@[k] == old(chart).notes@[k],
        decreases chart.notes.len() - i,
    {
        let note = chart.notes[i];
        if let NoteKind::Hold { position, .. } = note.kind {
            chart.notes.set(
                i,
                Note {
                    start: note.start,
                    kind: NoteKind::Tap { position, new_combo: false, combo_offset: 0 },
                },
            );
        }
        i += 1;
    }
    assert(chart.notes@ =~= collapsed_notes(old(chart).notes@));
    chart.label.append(" No LN");
}

} // verus!
