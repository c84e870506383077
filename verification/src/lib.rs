//! A countdown timer and alarm-clock library.
//!
//! Human-entered time expressions (duration tokens such as `10s`, `5m`, `2h`,
//! and wall-clock targets such as `14:30` or `14:30:00`) are turned into a
//! single non-negative duration in seconds.  The outcome of an argument parse
//! is a [`TimeResult`].

use vstd::prelude::*;

pub mod alarm;
pub mod configs;
pub mod console;
pub mod display;
pub mod errors;
pub mod text;
pub mod timer;

verus! {

/// The outcome of parsing time arguments: a computed duration in whole
/// seconds, a parse failure, or a request for the help text.
#[derive(Debug, PartialEq, Eq, Structural)]
pub enum TimeResult {
    Computed(u64),
    ParseFailure,
    HelpRequested,
}

} // verus!
