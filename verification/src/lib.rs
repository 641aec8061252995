//! Conversion of rhythm-game charts between tap notes and hold notes.
//!
//! A chart is a timed sequence of notes spread over four lanes. [`ln::full_ln`]
//! stretches tap notes into hold notes that never reach into the next note of
//! their lane, and [`noln::noln`] turns every hold note back into a tap note.
//! All times are whole ticks; the caller chooses how long a tick is.
//!
//! - [`chart`]: notes, lanes, timing points and the chart.
//! - [`order`]: the stable ordering of notes by start time.
//! - [`timing`]: beat divisors and the gap that they stand for.
//! - [`conversion`]: which taps become holds, as a function of the notes.
//! - [`ln`]: the conversion of a chart.
//! - [`noln`]: the collapse of a chart.
//! - [`theorems`]: what holds of every conversion and collapse of a chart.

pub mod chart;
pub mod conversion;
pub mod ln;
pub mod noln;
pub mod order;
pub mod theorems;
pub mod timing;
