//! Error types shared by the parsers and the playback layer.

use vstd::prelude::*;

verus! {

/// Raised when a duration token cannot be taken apart.
#[derive(Debug, Clone, PartialEq, Eq, Structural)]
pub struct CountError;

/// Raised when a notification sound cannot be played.
#[derive(Debug, Clone, PartialEq, Eq, Structural)]
pub struct PlaybackError;

/// Raised when a clock-target token fails validation.
#[derive(Debug, Clone, PartialEq, Eq, Structural)]
pub struct ParseError;

pub type CountResult<T> = core::result::Result<T, CountError>;

pub type PlaybackResult = core::result::Result<bool, PlaybackError>;

pub type TimeParseResult<T> = core::result::Result<T, ParseError>;

} // verus!
