//! Tempo curves: how a block's playback rate moves from one rep to the next.
//! `R` is the type of rates. A curve holds its rates; which of them a rep
//! plays at is decided here, the rate arithmetic (a ladder's climb, the clamp
//! to the engine's range) is done on `R` by the caller.
use vstd::prelude::*;

verus! {

#[derive(Debug, Clone, Copy, PartialEq)]
pub enum TempoCurve<R> {
    /// The same rate every rep.
    Dwell { rate: R },
    /// From `start`, `step` faster each rep, up to `target`.
    Ladder { start: R, step: R, target: R },
    /// `low`, with `high` on every `period`-th rep (a period of 0 counts as 1).
    Oscillate { low: R, high: R, period: u32 },
}

/// Rep `rep` (0-based) of an oscillating curve with this period plays high.
pub open spec fn spec_oscillate_high(rep: int, period: int) -> bool {
    let p = if period == 0 { 1 } else { period };
    (rep + 1) % p == 0
}

/// Whether rep `rep` (0-based) of an oscillating curve plays its high rate:
/// every `period`-th rep does, and every rep when `period` is 0 or 1.
pub fn oscillate_high(rep: u32, period: u32) -> (b: bool)
    requires
        rep < u32::MAX,
    ensures
        b == spec_oscillate_high(rep as int, period as int),
{
    let p = if period == 0 { 1 } else { period };
    (rep + 1) % p == 0
}

} // verus!
