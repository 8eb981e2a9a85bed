//! Overdub layers: recorded takes placed on the song timeline by absolute
//! source frame and summed into the mix. A layer's frame 0 sits at
//! `start_frame`, which may be negative after latency compensation (the
//! leading part is then cut). Which output frames of a block a layer reaches
//! is decided here; summing the samples is the caller's.
use vstd::prelude::*;

verus! {

/// Output frame `i` of a block starting at source frame `src_start` falls on
/// the layer's audio.
pub open spec fn layer_covers(src_start: int, start_frame: int, len: int, i: int) -> bool {
    0 <= src_start + i - start_frame < len
}

/// `x` clamped into `[lo, hi]` (for `lo <= hi`).
pub open spec fn clamp_int(x: int, lo: int, hi: int) -> int {
    if x < lo { lo } else if x > hi { hi } else { x }
}

/// The output frames `[lo, hi)` of a `frames`-frame block starting at source
/// frame `src_start` that a layer of `len` frames at `start_frame` reaches;
/// output frame `i` reads the layer's frame `src_start + i - start_frame`.
/// `lo` is where the layer starts within the block, clamped to the block, and
/// the window is empty (`hi == lo`) when the layer reaches none of it.
pub fn layer_window(src_start: usize, frames: usize, start_frame: i64, len: usize) -> (r: (usize, usize))
    ensures
        r.0 <= r.1 <= frames,
        r.0 == clamp_int(start_frame - src_start, 0, frames as int),
        r.1 == clamp_int(start_frame - src_start + len, r.0 as int, frames as int),
        forall|i: int| 0 <= i < frames ==> (r.0 <= i < r.1 <==> layer_covers(src_start as int, start_frame as int, len as int, i)),
{
    let s = src_start as i128;
    let f = frames as i128;
    let a = start_frame as i128;
    let n = len as i128;
    // i must satisfy a - s <= i < a - s + n and 0 <= i < f
    let lo0 = a - s;
    let hi0 = a - s + n;
    let lo = if lo0 < 0 { 0 } else if lo0 > f { f } else { lo0 };
    let hi = if hi0 < lo { lo } else if hi0 > f { f } else { hi0 };
    (lo as usize, hi as usize)
}

} // verus!
