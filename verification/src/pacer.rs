//! Frame pacing: ticks begin no closer together than the shortest frame.
//!
//! Times are whole nanoseconds. Reading the clock and sleeping are the
//! caller's part; how long to sleep is decided here.

use vstd::prelude::*;

verus! {

/// The shortest frame, 40 ms: a terminal that is redrawn faster flickers.
pub const MIN_FRAME_NANOS: u64 = 40_000_000;

/// How long to wait before a tick may begin, `elapsed` after the tick
/// before began.
pub open spec fn pause_due(elapsed: u64) -> int {
    if elapsed < MIN_FRAME_NANOS {
        MIN_FRAME_NANOS - elapsed
    } else {
        0
    }
}

/// How long the caller has to sleep before the next tick, `elapsed` after
/// the tick before began: what is missing to the shortest frame, and
/// nothing once that much time has passed.
pub fn pause_before_tick(elapsed: u64) -> (pause: u64)
    ensures
        pause == pause_due(elapsed),
{
    if elapsed < MIN_FRAME_NANOS {
        MIN_FRAME_NANOS - elapsed
    } else {
        0
    }
}

/// The pacing floor: a caller that sleeps at least as long as it is told
/// begins its tick no sooner than one shortest frame after the tick before,
/// and a caller that is late is not held up.
pub proof fn lemma_pacing_floor(elapsed: u64, slept: u64)
    requires
        slept >= pause_due(elapsed),
    ensures
        elapsed + slept >= MIN_FRAME_NANOS,
        elapsed >= MIN_FRAME_NANOS ==> pause_due(elapsed) == 0,
        0 <= pause_due(elapsed) <= MIN_FRAME_NANOS,
{
}

} // verus!
