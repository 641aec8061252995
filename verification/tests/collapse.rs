use rosu_noodlers::chart::{Chart, Note, NoteKind, TimingPoint};
use rosu_noodlers::noln::noln;

fn chart_with(notes: Vec<Note>) -> Chart {
    Chart { notes, timing_points: vec![TimingPoint { beat_length: 400 }], label: String::from("Hard") }
}

#[test]
fn holds_become_taps_at_their_start_and_position() {
    let mut chart = chart_with(vec![
        Note::hold(0, 64, 300),
        Note::tap(100, 192),
        Note::hold(50, 448, 0),
    ]);
    noln(&mut chart);
    assert_eq!(chart.notes, vec![Note::tap(0, 64), Note::tap(100, 192), Note::tap(50, 448)]);
    assert_eq!(chart.label, "Hard No LN");
    assert_eq!(chart.timing_points, vec![TimingPoint { beat_length: 400 }]);
}

#[test]
fn collapse_keeps_the_given_order() {
    let mut chart = chart_with(vec![Note::hold(900, 0, 10), Note::hold(100, 0, 10)]);
    noln(&mut chart);
    assert_eq!(chart.notes, vec![Note::tap(900, 0), Note::tap(100, 0)]);
}

#[test]
fn collapsed_holds_get_default_combo_settings_and_taps_keep_theirs() {
    let flagged = Note { start: 5, kind: NoteKind::Tap { position: 1, new_combo: true, combo_offset: 3 } };
    let mut chart = chart_with(vec![flagged, Note::hold(10, 2, 8)]);
    noln(&mut chart);
    assert_eq!(
        chart.notes,
        vec![
            flagged,
            Note { start: 10, kind: NoteKind::Tap { position: 2, new_combo: false, combo_offset: 0 } },
        ]
    );
}

#[test]
fn collapse_of_a_chart_without_holds_only_changes_the_label() {
    let notes = vec![Note::tap(0, 0), Note::tap(10, 500)];
    let mut chart = chart_with(notes.clone());
    noln(&mut chart);
    assert_eq!(chart.notes, notes);
    assert_eq!(chart.label, "Hard No LN");
}

#[test]
fn collapse_of_an_empty_chart() {
    let mut chart = Chart { notes: vec![], timing_points: vec![], label: String::new() };
    noln(&mut chart);
    assert_eq!(chart.notes, vec![]);
    assert_eq!(chart.label, " No LN");
}

#[test]
fn collapsing_twice_gives_the_same_notes() {
    let mut once = chart_with(vec![Note::hold(0, 64, 300), Note::tap(100, 192), Note::hold(50, 448, 7)]);
    noln(&mut once);
    let mut twice = once.clone();
    noln(&mut twice);
    assert_eq!(twice.notes, once.notes);
    assert_eq!(twice.label, "Hard No LN No LN");
}
