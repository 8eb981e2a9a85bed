//! Graph-clock to sample-frame mapping for sample-accurate overdub anchoring.
//!
//! A `ClockSnapshot` is one reading of a stream's position against the shared
//! graph clock: at graph time `now_ns` the stream was at sample `ticks`,
//! advancing at `rate_hz` samples per second. From a pair of snapshots taken
//! against the same clock a song-playback frame maps to the capture-ring frame
//! that was being acquired at the same instant.
use vstd::prelude::*;

verus! {

/// Nanoseconds in one second.
pub const NS_PER_SEC: i64 = 1_000_000_000;

/// Integer quotient rounded toward zero (the machine's signed division).
pub open spec fn div_toward_zero(a: int, b: int) -> int {
    if a == 0 {
        0
    } else if a > 0 && b > 0 {
        a / b
    } else if a < 0 && b < 0 {
        (-a) / (-b)
    } else if a < 0 {
        -((-a) / b)
    } else {
        -(a / (-b))
    }
}

/// Signed division that rounds toward zero, checked against its definition.
fn div_i64(a: i64, b: i64) -> (r: i64)
    requires
        b != 0,
        i64::MIN <= div_toward_zero(a as int, b as int) <= i64::MAX,
    ensures
        r == div_toward_zero(a as int, b as int),
{
    match a.checked_div(b) {
        Some(q) => q,
        None => 0,
    }
}

/// One reading of a stream's position against the shared graph clock.
#[derive(Debug, Clone, Copy, PartialEq, Eq, Structural)]
pub struct ClockSnapshot {
    /// Graph-clock timestamp of this reading (nanoseconds, monotonic).
    pub now_ns: i64,
    /// Stream sample position at `now_ns`.
    pub ticks: i64,
    /// Sample rate (frames per second), e.g. 48_000.
    pub rate_hz: i64,
}

pub open spec fn in_i64(x: int) -> bool {
    i64::MIN <= x <= i64::MAX
}

impl ClockSnapshot {
    /// The stream frame at graph time `t_ns`, interpolated from this reading.
    pub open spec fn spec_frame_at(self, t_ns: int) -> int {
        self.ticks + div_toward_zero((t_ns - self.now_ns) * self.rate_hz, NS_PER_SEC as int)
    }

    /// The graph time at which the stream reaches `frame`.
    pub open spec fn spec_ns_at(self, frame: int) -> int {
        self.now_ns + div_toward_zero((frame - self.ticks) * NS_PER_SEC, self.rate_hz as int)
    }

    /// Every intermediate value of `frame_at_ns` fits the machine integers.
    pub open spec fn frame_at_fits(self, t_ns: int) -> bool {
        &&& in_i64(t_ns - self.now_ns)
        &&& in_i64((t_ns - self.now_ns) * self.rate_hz)
        &&& in_i64(self.spec_frame_at(t_ns))
    }

    /// Every intermediate value of `ns_at_frame` fits the machine integers.
    pub open spec fn ns_at_fits(self, frame: int) -> bool {
        &&& self.rate_hz != 0
        &&& in_i64(frame - self.ticks)
        &&& in_i64((frame - self.ticks) * NS_PER_SEC)
        &&& in_i64(div_toward_zero((frame - self.ticks) * NS_PER_SEC, self.rate_hz as int))
        &&& in_i64(self.spec_ns_at(frame))
    }

    /// The stream's sample frame at graph time `t_ns` (linear interpolation
    /// from this snapshot).
    pub fn frame_at_ns(&self, t_ns: i64) -> (r: i64)
        requires
            self.frame_at_fits(t_ns as int),
        ensures
            r == self.spec_frame_at(t_ns as int),
    {
        let dt = t_ns - self.now_ns;
        let scaled = dt * self.rate_hz;
        proof {
            lemma_div_toward_zero_bounded(scaled as int, NS_PER_SEC as int);
        }
        self.ticks + div_i64(scaled, NS_PER_SEC)
    }

    /// The graph time (ns) at which the stream reaches sample `frame`.
    pub fn ns_at_frame(&self, frame: i64) -> (r: i64)
        requires
            self.ns_at_fits(frame as int),
        ensures
            r == self.spec_ns_at(frame as int),
    {
        let df = frame - self.ticks;
        let scaled = df * NS_PER_SEC;
        self.now_ns + div_i64(scaled, self.rate_hz)
    }
}

/// For a positive divisor the truncated quotient is no larger in magnitude
/// than the dividend.
pub proof fn lemma_div_toward_zero_bounded(a: int, b: int)
    requires
        b > 0,
    ensures
        a >= 0 ==> 0 <= div_toward_zero(a, b) <= a,
        a < 0 ==> a <= div_toward_zero(a, b) <= 0,
{
    if a > 0 {
        vstd::arithmetic::div_mod::lemma_div_is_ordered_by_denominator(a, 1, b);
        vstd::arithmetic::div_mod::lemma_div_pos_is_pos(a, b);
    } else if a < 0 {
        vstd::arithmetic::div_mod::lemma_div_is_ordered_by_denominator(-a, 1, b);
        vstd::arithmetic::div_mod::lemma_div_pos_is_pos(-a, b);
    }
}

/// Given the capture stream's clock snapshot and the capture ring's
/// total-frames-written count recorded at that snapshot's instant, the ring's
/// absolute frame number being acquired at graph time `t_ns`.
pub open spec fn spec_ring_frame_at(cap: ClockSnapshot, ring_total_at_snapshot: int, t_ns: int) -> int {
    ring_total_at_snapshot + (cap.spec_frame_at(t_ns) - cap.ticks)
}

/// The ring frame acquired at graph time `t_ns`: the ring total at the
/// snapshot shifted by however many stream frames elapsed since.
pub fn ring_frame_at_ns(cap: &ClockSnapshot, ring_total_at_snapshot: i64, t_ns: i64) -> (r: i64)
    requires
        cap.frame_at_fits(t_ns as int),
        in_i64(cap.spec_frame_at(t_ns as int) - cap.ticks),
        in_i64(spec_ring_frame_at(*cap, ring_total_at_snapshot as int, t_ns as int)),
    ensures
        r == spec_ring_frame_at(*cap, ring_total_at_snapshot as int, t_ns as int),
{
    let stream_frame = cap.frame_at_ns(t_ns);
    ring_total_at_snapshot + (stream_frame - cap.ticks)
}

/// Mapping a frame to graph time and back returns the same frame whenever the
/// frame offset is a whole number of nanoseconds at the snapshot's rate.
pub proof fn lemma_frame_ns_round_trip(s: ClockSnapshot, frame: int)
    requires
        s.rate_hz > 0,
        ((frame - s.ticks) * NS_PER_SEC) % (s.rate_hz as int) == 0,
    ensures
        s.spec_frame_at(s.spec_ns_at(frame)) == frame,
{
    let d = frame - s.ticks;
    let r = s.rate_hz as int;
    let n = NS_PER_SEC as int;
    let q = (d * n) / r;
    vstd::arithmetic::div_mod::lemma_fundamental_div_mod(d * n, r);
    assert(d * n == r * q);
    // the quotient is exact, so rounding direction does not matter
    assert(div_toward_zero(d * n, r) == q) by {
        if d * n < 0 {
            vstd::arithmetic::div_mod::lemma_div_multiples_vanish(-q, r);
            assert(-(d * n) == r * (-q)) by (nonlinear_arith)
                requires d * n == r * q;
            assert((-(d * n)) / r == -q);
        } else if d * n > 0 {
            vstd::arithmetic::div_mod::lemma_div_multiples_vanish(q, r);
        }
    }
    assert(s.spec_ns_at(frame) - s.now_ns == q);
    assert(q * r == d * n) by (nonlinear_arith) requires d * n == r * q;
    assert(div_toward_zero(q * r, n) == d) by {
        if d < 0 {
            vstd::arithmetic::div_mod::lemma_div_multiples_vanish(-d, n);
            assert(-(q * r) == n * (-d)) by (nonlinear_arith)
                requires q * r == d * n;
            assert(q * r < 0) by (nonlinear_arith) requires q * r == d * n, d < 0, n > 0;
        } else if d > 0 {
            vstd::arithmetic::div_mod::lemma_div_multiples_vanish(d, n);
            assert(q * r == n * d) by (nonlinear_arith) requires q * r == d * n;
            assert(q * r > 0) by (nonlinear_arith) requires q * r == d * n, d > 0, n > 0;
        } else {
            assert(q * r == 0) by (nonlinear_arith) requires q * r == d * n, d == 0;
        }
    }
}

} // verus!
