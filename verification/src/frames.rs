//! The ring of frames that a renderer keeps in flight.

use vstd::prelude::*;

verus! {

/// How many frames are recorded while earlier ones are still drawn.
pub const NUM_FRAMES_IN_FLIGHT: usize = 2;

/// The frame that follows `current` in a ring of `count` frames.
pub open spec fn frame_after(current: int, count: int) -> int {
    if current + 1 >= count {
        0
    } else {
        current + 1
    }
}

/// Exec counterpart of [`frame_after`].
pub fn next_frame(current: usize, count: usize) -> (r: usize)
    ensures
        r == frame_after(current as int, count as int),
        count > 0 ==> r < count,
{
    if current >= count || current + 1 >= count {
        0
    } else {
        current + 1
    }
}

} // verus!
