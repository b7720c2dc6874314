use vstd::prelude::*;

verus! {

/// Milliseconds of budget for one frame at sixty frames per second.
pub const FRAME_MS: u64 = 1000 / 60;

/// Remaining budget of the current frame: how many milliseconds the caller
/// should still wait before starting the next frame, given how long this
/// frame has taken so far. Zero when the frame already ran over budget.
pub fn frame_wait(frame_time_ms: u64) -> (r: u64)
    ensures
        r == if frame_time_ms < FRAME_MS { (FRAME_MS - frame_time_ms) as u64 } else { 0u64 },
{
    if frame_time_ms < FRAME_MS {
        FRAME_MS - frame_time_ms
    } else {
        0
    }
}

/// Whether a timer with the given interval is due: strictly more than the
/// interval has elapsed since the timer was last reset.
pub fn timer_due(elapsed_ms: u64, interval_ms: u64) -> (r: bool)
    ensures
        r == (elapsed_ms > interval_ms),
{
    elapsed_ms > interval_ms
}

} // verus!
