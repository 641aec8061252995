use rosu_noodlers::chart::{lane_index, Chart, Note, NoteKind, TimingPoint};
use rosu_noodlers::conversion::Transformation;
use rosu_noodlers::ln::{
    apply_plan, compute_candidate_duration, find_next_in_lane, full_ln, next_in_lane_table,
    plan_holds,
};
use rosu_noodlers::noln::noln;

fn chart_of(notes: Vec<Note>) -> Chart {
    Chart { notes, timing_points: vec![TimingPoint { beat_length: 500 }], label: String::from("Normal") }
}

fn tap_with_combo(start: i64, position: i32) -> Note {
    Note { start, kind: NoteKind::Tap { position, new_combo: true, combo_offset: 2 } }
}

#[test]
fn two_taps_in_one_lane_both_become_holds() {
    let mut chart = chart_of(vec![Note::tap(0, 0), Note::tap(100, 0)]);
    full_ln(&mut chart, 10, 5);
    assert_eq!(chart.notes, vec![Note::hold(0, 0, 90), Note::hold(100, 0, 10)]);
    assert_eq!(chart.label, "Normal Full LN");
}

#[test]
fn trailing_tap_stays_when_gap_is_not_above_threshold() {
    let mut chart = chart_of(vec![Note::tap(0, 0), Note::tap(100, 0)]);
    full_ln(&mut chart, 10, 10);
    assert_eq!(chart.notes, vec![Note::hold(0, 0, 90), Note::tap(100, 0)]);
}

#[test]
fn one_tap_per_lane_below_threshold_is_left_alone() {
    let notes = vec![Note::tap(0, 64), Note::tap(0, 192), Note::tap(0, 320), Note::tap(0, 448)];
    let mut chart = chart_of(notes.clone());
    full_ln(&mut chart, 20, 25);
    assert_eq!(chart.notes, notes);
    assert_eq!(chart.label, "Normal Full LN");
}

#[test]
fn empty_chart_only_gets_the_label_suffix() {
    let mut chart = Chart { notes: vec![], timing_points: vec![], label: String::from("Empty") };
    full_ln(&mut chart, 40, 30);
    assert_eq!(chart.notes, vec![]);
    assert_eq!(chart.timing_points, vec![]);
    assert_eq!(chart.label, "Empty Full LN");
}

#[test]
fn single_note_becomes_hold_of_gap_length() {
    let mut chart = chart_of(vec![Note::tap(700, 300)]);
    full_ln(&mut chart, 40, 30);
    assert_eq!(chart.notes, vec![Note::hold(700, 300, 40)]);
}

#[test]
fn single_note_stays_when_gap_equals_threshold() {
    let mut chart = chart_of(vec![Note::tap(700, 300)]);
    full_ln(&mut chart, 40, 40);
    assert_eq!(chart.notes, vec![Note::tap(700, 300)]);
}

#[test]
fn timing_points_are_left_alone() {
    let points = vec![TimingPoint { beat_length: 300 }, TimingPoint { beat_length: 900 }];
    let mut chart = Chart {
        notes: vec![Note::tap(0, 0), Note::tap(100, 0)],
        timing_points: points.clone(),
        label: String::new(),
    };
    full_ln(&mut chart, 10, 5);
    assert_eq!(chart.timing_points, points);
    assert_eq!(chart.label, " Full LN");
}

#[test]
fn notes_are_put_in_order_before_conversion() {
    let mut chart = chart_of(vec![Note::tap(300, 0), Note::tap(0, 0), Note::tap(100, 200)]);
    full_ln(&mut chart, 10, 5);
    assert_eq!(
        chart.notes,
        vec![Note::hold(0, 0, 290), Note::hold(100, 200, 10), Note::hold(300, 0, 10)]
    );
}

#[test]
fn lanes_do_not_disturb_each_other() {
    let mut chart = chart_of(vec![
        Note::tap(0, 64),
        Note::tap(50, 192),
        Note::tap(200, 64),
        Note::tap(400, 192),
    ]);
    full_ln(&mut chart, 20, 0);
    assert_eq!(
        chart.notes,
        vec![
            Note::hold(0, 64, 180),
            Note::hold(50, 192, 330),
            Note::hold(200, 64, 20),
            Note::hold(400, 192, 20),
        ]
    );
}

#[test]
fn candidate_duration_is_floored_at_zero() {
    let mut chart = chart_of(vec![Note::tap(0, 0), Note::tap(30, 0), Note::tap(500, 0)]);
    full_ln(&mut chart, 40, 0);
    assert_eq!(
        chart.notes,
        vec![Note::tap(0, 0), Note::hold(30, 0, 430), Note::hold(500, 0, 40)]
    );
    let notes = vec![Note::tap(0, 0), Note::tap(30, 0), Note::tap(500, 0)];
    assert_eq!(compute_candidate_duration(&notes, 40, 0), 0);
    assert_eq!(compute_candidate_duration(&notes, 40, 1), 430);
    assert_eq!(compute_candidate_duration(&notes, 40, 2), 40);
    assert_eq!(compute_candidate_duration(&notes, 30, 0), 0);
    assert_eq!(compute_candidate_duration(&notes, 29, 0), 1);
}

#[test]
fn taps_at_the_same_tick_in_one_lane() {
    let mut chart = chart_of(vec![Note::tap(100, 10), Note::tap(100, 20), Note::tap(400, 30)]);
    full_ln(&mut chart, 50, 0);
    assert_eq!(
        chart.notes,
        vec![Note::tap(100, 10), Note::hold(100, 20, 250), Note::hold(400, 30, 50)]
    );
}

#[test]
fn notes_before_tick_zero_are_never_converted() {
    let mut chart = chart_of(vec![Note::tap(-500, 0), Note::tap(-1, 0), Note::tap(0, 0)]);
    full_ln(&mut chart, 10, 5);
    assert_eq!(
        chart.notes,
        vec![Note::tap(-500, 0), Note::tap(-1, 0), Note::hold(0, 0, 10)]
    );
}

#[test]
fn existing_hold_is_a_lookahead_target_but_no_candidate() {
    let mut chart = chart_of(vec![Note::tap(0, 0), Note::hold(200, 0, 50), Note::tap(600, 0)]);
    full_ln(&mut chart, 25, 5);
    assert_eq!(
        chart.notes,
        vec![Note::hold(0, 0, 175), Note::hold(200, 0, 50), Note::hold(600, 0, 25)]
    );
}

#[test]
fn existing_hold_does_not_occupy_its_lane() {
    let mut chart = chart_of(vec![Note::hold(50, 0, 1000), Note::tap(100, 0)]);
    full_ln(&mut chart, 10, 5);
    assert_eq!(chart.notes, vec![Note::hold(50, 0, 1000), Note::hold(100, 0, 10)]);
}

#[test]
fn conversion_drops_combo_settings_of_converted_taps_only() {
    let mut chart = chart_of(vec![
        tap_with_combo(0, 0),
        tap_with_combo(100, 0),
    ]);
    full_ln(&mut chart, 10, 10);
    assert_eq!(chart.notes, vec![Note::hold(0, 0, 90), tap_with_combo(100, 0)]);
}

#[test]
fn threshold_is_respected() {
    let before = vec![
        Note::tap(0, 0),
        Note::tap(60, 0),
        Note::tap(100, 0),
        Note::tap(400, 0),
        Note::tap(430, 0),
    ];
    let mut chart = chart_of(before.clone());
    full_ln(&mut chart, 10, 50);
    for (i, note) in chart.notes.iter().enumerate() {
        let candidate = compute_candidate_duration(&before, 10, i);
        if candidate <= 50 {
            assert_eq!(*note, before[i]);
        }
        if let NoteKind::Hold { duration, .. } = note.kind {
            assert!(duration > 50);
            assert_eq!(duration, candidate);
        }
    }
    assert_eq!(
        chart.notes,
        vec![
            Note::tap(0, 0),
            Note::tap(60, 0),
            Note::hold(100, 0, 290),
            Note::tap(400, 0),
            Note::tap(430, 0),
        ]
    );
}

#[test]
fn new_holds_end_gap_before_the_next_note_of_their_lane() {
    let before = vec![
        Note::tap(0, 64),
        Note::tap(120, 448),
        Note::tap(250, 64),
        Note::tap(300, 448),
        Note::tap(900, 64),
    ];
    let mut chart = chart_of(before.clone());
    full_ln(&mut chart, 35, 0);
    for i in 0..chart.notes.len() {
        if let NoteKind::Hold { duration, .. } = chart.notes[i].kind {
            let next = find_next_in_lane(&chart.notes, chart.notes[i].lane(), i + 1);
            if next < chart.notes.len() {
                assert_eq!(chart.notes[i].start + duration as i64, chart.notes[next].start - 35);
            }
        }
    }
    assert_eq!(chart.notes[0], Note::hold(0, 64, 215));
    assert_eq!(chart.notes[1], Note::hold(120, 448, 145));
}

#[test]
fn holds_of_one_lane_do_not_overlap_after_converting_taps() {
    let mut notes = Vec::new();
    for step in 0..40i64 {
        notes.push(Note::tap(step * 90, ((step * 5) % 4) as i32 * 128 + 64));
    }
    let mut chart = chart_of(notes);
    full_ln(&mut chart, 15, 20);
    let mut last_end = [0i128; 4];
    let mut holds = 0;
    for note in chart.notes.iter() {
        if let NoteKind::Hold { duration, .. } = note.kind {
            assert!(note.start as i128 >= last_end[note.lane()]);
            last_end[note.lane()] = note.start as i128 + duration as i128;
            holds += 1;
        }
    }
    assert_eq!(holds, 36);
}

#[test]
fn repeated_conversion_appends_the_suffix_each_time() {
    let mut chart = chart_of(vec![Note::tap(0, 0)]);
    full_ln(&mut chart, 10, 5);
    assert_eq!(chart.label, "Normal Full LN");
    full_ln(&mut chart, 10, 5);
    assert_eq!(chart.label, "Normal Full LN Full LN");
    assert_eq!(chart.notes, vec![Note::hold(0, 0, 10)]);
}

#[test]
fn converting_then_collapsing_gives_taps_only() {
    let before = vec![Note::tap(300, 0), Note::hold(0, 200, 40), Note::tap(100, 200), Note::tap(900, 0)];
    let mut chart = chart_of(before.clone());
    full_ln(&mut chart, 10, 5);
    noln(&mut chart);
    assert_eq!(chart.notes.len(), before.len());
    assert!(chart.notes.iter().all(|note| note.is_tap()));
    assert_eq!(
        chart.notes,
        vec![Note::tap(0, 200), Note::tap(100, 200), Note::tap(300, 0), Note::tap(900, 0)]
    );
    assert_eq!(chart.label, "Normal Full LN No LN");
}

#[test]
fn extreme_times_and_gaps_are_handled() {
    let mut chart = chart_of(vec![Note::tap(0, 0), Note::tap(i64::MAX, 0)]);
    full_ln(&mut chart, 0, 0);
    assert_eq!(chart.notes, vec![Note::hold(0, 0, i64::MAX as u64), Note::tap(i64::MAX, 0)]);

    let mut chart = chart_of(vec![Note::tap(0, 0), Note::tap(i64::MAX, 0)]);
    full_ln(&mut chart, u64::MAX, 0);
    assert_eq!(chart.notes, vec![Note::tap(0, 0), Note::hold(i64::MAX, 0, u64::MAX)]);

    let mut chart = chart_of(vec![Note::tap(i64::MIN, 0), Note::tap(i64::MAX, 0)]);
    full_ln(&mut chart, 0, u64::MAX);
    assert_eq!(chart.notes, vec![Note::tap(i64::MIN, 0), Note::tap(i64::MAX, 0)]);
    let notes = vec![Note::tap(i64::MIN, 0), Note::tap(i64::MAX, 0)];
    assert_eq!(compute_candidate_duration(&notes, 0, 0), u64::MAX);
}

#[test]
fn lane_of_a_position() {
    assert_eq!(lane_index(0), 0);
    assert_eq!(lane_index(127), 0);
    assert_eq!(lane_index(128), 1);
    assert_eq!(lane_index(255), 1);
    assert_eq!(lane_index(256), 2);
    assert_eq!(lane_index(383), 2);
    assert_eq!(lane_index(384), 3);
    assert_eq!(lane_index(511), 3);
    assert_eq!(lane_index(512), 3);
    assert_eq!(lane_index(i32::MAX), 3);
    assert_eq!(lane_index(-1), 0);
    assert_eq!(lane_index(i32::MIN), 0);
    assert_eq!(Note::tap(0, 200).lane(), 1);
    assert_eq!(Note::hold(0, 448, 5).lane(), 3);
}

#[test]
fn note_accessors() {
    let tap = Note::tap(10, 300);
    let hold = Note::hold(20, 100, 35);
    assert_eq!(tap.position(), 300);
    assert_eq!(hold.position(), 100);
    assert!(tap.is_tap() && !tap.is_hold());
    assert!(hold.is_hold() && !hold.is_tap());
    assert_eq!(tap.duration(), 0);
    assert_eq!(hold.duration(), 35);
    assert_eq!(tap.kind, NoteKind::Tap { position: 300, new_combo: false, combo_offset: 0 });
    assert_eq!(hold.kind, NoteKind::Hold { position: 100, duration: 35 });
}

#[test]
fn next_note_of_a_lane() {
    let notes = vec![Note::tap(0, 0), Note::tap(10, 200), Note::hold(20, 100, 5), Note::tap(30, 500)];
    assert_eq!(find_next_in_lane(&notes, 0, 0), 0);
    assert_eq!(find_next_in_lane(&notes, 0, 1), 2);
    assert_eq!(find_next_in_lane(&notes, 0, 3), 4);
    assert_eq!(find_next_in_lane(&notes, 1, 0), 1);
    assert_eq!(find_next_in_lane(&notes, 2, 0), 4);
    assert_eq!(find_next_in_lane(&notes, 3, 0), 3);
    assert_eq!(find_next_in_lane(&notes, 3, 4), 4);
    assert_eq!(next_in_lane_table(&notes), vec![2, 4, 4, 4]);
    assert_eq!(next_in_lane_table(&Vec::new()), vec![]);
}

#[test]
fn next_notes_of_all_lanes_at_once() {
    let mut notes = Vec::new();
    for step in 0..200i64 {
        notes.push(Note::tap(step * 10, ((step * step + 3 * step) % 5) as i32 * 110));
    }
    let table = next_in_lane_table(&notes);
    for i in 0..notes.len() {
        assert_eq!(table[i], find_next_in_lane(&notes, notes[i].lane(), i + 1));
    }
}

#[test]
fn plan_lists_the_taps_to_convert_in_order() {
    let notes = vec![Note::tap(0, 0), Note::tap(30, 0), Note::hold(100, 0, 5), Note::tap(500, 0)];
    let plan = plan_holds(&notes, 40, 0);
    assert_eq!(
        plan,
        vec![
            Transformation { index: 1, duration: 30 },
            Transformation { index: 3, duration: 40 },
        ]
    );
    assert_eq!(plan_holds(&notes, 40, 40), vec![]);
    assert_eq!(plan_holds(&Vec::new(), 40, 0), vec![]);
}

#[test]
fn plan_is_carried_out_on_taps_only() {
    let mut notes = vec![tap_with_combo(0, 7), Note::hold(30, 0, 5), Note::tap(500, 0)];
    let plan = vec![
        Transformation { index: 0, duration: 11 },
        Transformation { index: 1, duration: 12 },
        Transformation { index: 0, duration: 13 },
    ];
    apply_plan(&mut notes, &plan);
    assert_eq!(notes, vec![Note::hold(0, 7, 11), Note::hold(30, 0, 5), Note::tap(500, 0)]);
}
