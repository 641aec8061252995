//! The chart data model: notes, lanes, timing points and the chart itself.

use vstd::prelude::*;

verus! {

/// Number of lanes that the playfield is divided into.
pub const LANE_COUNT: usize = 4;

/// Width of the playfield, in the units of a note's horizontal position.
pub const TRACK_WIDTH: i32 = 512;

/// The lane that a horizontal position falls into: the playfield is cut into
/// `LANE_COUNT` equal strips, and positions outside it count for the nearest one.
pub open spec fn lane_of(position: int) -> int {
    let strip = (position * LANE_COUNT as int) / (TRACK_WIDTH as int);
    if strip < 0 {
        0
    } else if strip > LANE_COUNT - 1 {
        LANE_COUNT - 1
    } else {
        strip
    }
}

/// Computes the lane of a horizontal position.
pub fn lane_index(position: i32) -> (lane: usize)
    ensures
        lane == lane_of(position as int),
        lane < LANE_COUNT,
{
    if position < 0 {
        0
    } else {
        assert(position * LANE_COUNT == 4 * position) by (nonlinear_arith)
            requires
                LANE_COUNT == 4,
        ;
        let strip: i64 = (position as i64 * LANE_COUNT as i64) / (TRACK_WIDTH as i64);
        if strip > LANE_COUNT as i64 - 1 {
            LANE_COUNT - 1
        } else {
            strip as usize
        }
    }
}

/// What a note asks of the player.
#[derive(Clone, Copy, Debug, PartialEq, Eq)]
pub enum NoteKind {
    /// A single action at the note's start.
    Tap {
        /// Horizontal position on the playfield.
        position: i32,
        /// Whether the note starts a new combo.
        new_combo: bool,
        /// How many combo colours the note skips.
        combo_offset: i32,
    },
    /// A sustained action from the note's start for `duration` ticks.
    Hold {
        /// Horizontal position on the playfield.
        position: i32,
        /// Length of the hold in ticks.
        duration: u64,
    },
}

/// A timed event in one lane of the chart.
#[derive(Clone, Copy, Debug, PartialEq, Eq)]
pub struct Note {
    /// Start time in ticks.
    pub start: i64,
    /// Tap or hold, with the horizontal position.
    pub kind: NoteKind,
}

impl Note {
    /// A tap note with default combo settings.
    pub fn tap(start: i64, position: i32) -> (note: Note)
        ensures
            note == (Note {
                start,
                kind: NoteKind::Tap { position, new_combo: false, combo_offset: 0 },
            }),
    {
        Note { start, kind: NoteKind::Tap { position, new_combo: false, combo_offset: 0 } }
    }

    /// A hold note of the given length.
    pub fn hold(start: i64, position: i32, duration: u64) -> (note: Note)
        ensures
            note == (Note { start, kind: NoteKind::Hold { position, duration } }),
    {
        Note { start, kind: NoteKind::Hold { position, duration } }
    }

    /// Horizontal position of the note, whatever its kind.
    pub open spec fn spec_position(&self) -> i32 {
        match self.kind {
            NoteKind::Tap { position, .. } => position,
            NoteKind::Hold { position, .. } => position,
        }
    }

    /// Horizontal position of the note, whatever its kind.
    #[verifier::when_used_as_spec(spec_position)]
    pub fn position(&self) -> (position: i32)
        ensures
            position == self.spec_position(),
    {
        match self.kind {
            NoteKind::Tap { position, .. } => position,
            NoteKind::Hold { position, .. } => position,
        }
    }

    /// The lane that the note falls into.
    pub open spec fn spec_lane(&self) -> usize {
        lane_of(self.spec_position() as int) as usize
    }

    /// The lane that the note falls into.
    #[verifier::when_used_as_spec(spec_lane)]
    pub fn lane(&self) -> (lane: usize)
        ensures
            lane == self.spec_lane(),
            lane < LANE_COUNT,
    {
        lane_index(self.position())
    }

    /// Whether the note is a hold note.
    pub open spec fn spec_is_hold(&self) -> bool {
        self.kind is Hold
    }

    /// Whether the note is a hold note.
    #[verifier::when_used_as_spec(spec_is_hold)]
    pub fn is_hold(&self) -> (hold: bool)
        ensures
            hold == self.spec_is_hold(),
    {
        match self.kind {
            NoteKind::Hold { .. } => true,
            NoteKind::Tap { .. } => false,
        }
    }

    /// Whether the note is a tap note.
    pub open spec fn spec_is_tap(&self) -> bool {
        self.kind is Tap
    }

    /// Whether the note is a tap note.
    #[verifier::when_used_as_spec(spec_is_tap)]
    pub fn is_tap(&self) -> (tap: bool)
        ensures
            tap == self.spec_is_tap(),
    {
        match self.kind {
            NoteKind::Tap { .. } => true,
            NoteKind::Hold { .. } => false,
        }
    }

    /// Length of the note in ticks: a hold's duration, zero for a tap.
    pub open spec fn spec_duration(&self) -> u64 {
        match self.kind {
            NoteKind::Tap { .. } => 0,
            NoteKind::Hold { duration, .. } => duration,
        }
    }

    /// Length of the note in ticks: a hold's duration, zero for a tap.
    #[verifier::when_used_as_spec(spec_duration)]
    pub fn duration(&self) -> (duration: u64)
        ensures
            duration == self.spec_duration(),
    {
        match self.kind {
            NoteKind::Tap { .. } => 0,
            NoteKind::Hold { duration, .. } => duration,
        }
    }

    /// The tick at which the note releases its lane: a hold occupies the
    /// interval from `start` to `end` inclusive.
    pub open spec fn end(&self) -> int {
        self.start + self.spec_duration()
    }
}

/// A timing reference of the chart.
#[derive(Clone, Copy, Debug, PartialEq, Eq)]
pub struct TimingPoint {
    /// Ticks per beat.
    pub beat_length: u32,
}

/// A chart: its notes, its timing points and its display label.
#[derive(Clone, Debug, PartialEq, Eq)]
pub struct Chart {
    /// The notes of the chart.
    pub notes: Vec<Note>,
    /// The timing points of the chart.
    pub timing_points: Vec<TimingPoint>,
    /// Free-form display label.
    pub label: String,
}

/// The mathematical content of a [`Chart`].
pub struct ChartView {
    pub notes: Seq<Note>,
    pub timing_points: Seq<TimingPoint>,
    pub label: Seq<char>,
}

impl View for Chart {
    type V = ChartView;

    open spec fn view(&self) -> ChartView {
        ChartView { notes: self.notes@, timing_points: self.timing_points@, label: self.label@ }
    }
}

} // verus!
