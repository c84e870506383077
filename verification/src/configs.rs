//! What the countdown is configured with: where the notification sound
//! lives and where the per-character digit art is kept, held as plain
//! path text.  Reading and writing the configuration file is the host
//! program's business.

use vstd::prelude::*;

verus! {

/// The two filesystem locations the countdown needs.
#[derive(Debug, Clone)]
pub struct MyConfig {
    pub beep_pos: String,
    pub digit_pos: String,
}

} // verus!
