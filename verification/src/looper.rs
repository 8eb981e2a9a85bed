//! Sample-accurate looping over a song of `frames` frames. When a loop region
//! is set, playback wraps from its end back to its start through a linear
//! crossfade: the tail `[end - x, end)` is blended with the head
//! `[start, start + x)`, after which play continues from `start + x` (the
//! head's first `x` frames were already heard inside the blend). The first
//! pass is therefore exactly `end - start` frames and each later pass
//! `end - start - x` frames. A loop too short for a crossfade (`x` is 0)
//! wraps at `end` straight back to `start`. A playhead at or past the loop end
//! (after a seek) jumps to the loop start before reading. No frame at or past
//! the loop end is ever read.
//!
//! The looper decides positions; a read yields the list of source runs and
//! blended frames to mix, in output order.
use vstd::prelude::*;

verus! {

/// Crossfade length at the loop seam (10 ms at 48 kHz).
pub const XFADE_FRAMES: usize = 480;

/// What one read produced.
#[derive(Debug, Clone, Copy, PartialEq, Eq, Default, Structural)]
pub struct ReadInfo {
    /// Output frames produced.
    pub frames: usize,
    /// The read crossed the loop seam (it stops right after doing so).
    pub wrapped: bool,
    /// The source ran out (end of song, or an empty loop region).
    pub finished: bool,
}

/// One piece of a read, in output order.
#[derive(Debug, Clone, Copy, PartialEq, Eq, Structural)]
pub enum Segment {
    /// Source frames `[src, src + frames)`, played straight.
    Run { src: usize, frames: usize },
    /// One output frame blending tail frame `tail` (weight `1 - t`) with head
    /// frame `head` (weight `t`), where `t = (k + 0.5) / xfade`.
    Blend { tail: usize, head: usize, k: usize, xfade: usize },
}

/// The crossfade length for a region of `len` frames: 10 ms, shrunk to a
/// quarter of the region for tiny loops.
pub open spec fn xfade_for(len: int) -> int {
    if XFADE_FRAMES < len / 4 { XFADE_FRAMES as int } else { len / 4 }
}

pub open spec fn min_int(a: int, b: int) -> int {
    if a < b { a } else { b }
}

/// 1 when a loop is set and `pos` is at or past its end, else 0.
pub open spec fn past_end(region: Option<(usize, usize)>, pos: int) -> int {
    match region {
        Some((_s, e)) => if pos >= e { 1 } else { 0 },
        None => 0,
    }
}

/// Outcome of reading up to `want` frames from `pos`:
/// (new position, frames produced, wrapped, finished, segments).
pub open spec fn read_plan(total: int, region: Option<(usize, usize)>, pos: int, want: int) -> (
    int,
    int,
    bool,
    bool,
    Seq<Segment>,
)
    decreases want, past_end(region, pos),
{
    if want <= 0 {
        (pos, 0, false, false, Seq::empty())
    } else {
        match region {
            None => if pos >= total {
                (pos, 0, false, true, Seq::empty())
            } else {
                let chunk = min_int(want, total - pos);
                let r = read_plan(total, region, pos + chunk, want - chunk);
                (r.0, r.1 + chunk, r.2, r.3, seq![Segment::Run { src: pos as usize, frames: chunk as usize }] + r.4)
            },
            Some((s, e)) => {
                let len = e - s;
                if len <= 0 {
                    (pos, 0, false, true, Seq::empty())
                } else if pos >= e {
                    read_plan(total, region, s as int, want)
                } else {
                    let x = xfade_for(len);
                    let fs = e - x;
                    if pos < fs {
                        let chunk = min_int(want, fs - pos);
                        let run = Segment::Run { src: pos as usize, frames: chunk as usize };
                        if x == 0 && pos + chunk == e {
                            (s as int, chunk, true, false, seq![run])
                        } else {
                            let r = read_plan(total, region, pos + chunk, want - chunk);
                            (r.0, r.1 + chunk, r.2, r.3, seq![run] + r.4)
                        }
                    } else {
                        let k = pos - fs;
                        let seg = Segment::Blend { tail: pos as usize, head: (s + k) as usize, k: k as usize, xfade: x as usize };
                        if pos + 1 >= e {
                            (s + x, 1, true, false, seq![seg])
                        } else {
                            let r = read_plan(total, region, pos + 1, want - 1);
                            (r.0, r.1 + 1, r.2, r.3, seq![seg] + r.4)
                        }
                    }
                }
            },
        }
    }
}

/// Output frames a segment contributes.
pub open spec fn segment_frames(seg: Segment) -> int {
    match seg {
        Segment::Run { frames, .. } => frames as int,
        Segment::Blend { .. } => 1,
    }
}

/// Output frames a list of segments contributes.
pub open spec fn segments_frames(segs: Seq<Segment>) -> int
    decreases segs.len(),
{
    if segs.len() == 0 {
        0
    } else {
        segment_frames(segs[0]) + segments_frames(segs.drop_first())
    }
}

proof fn lemma_segments_frames_cons(seg: Segment, rest: Seq<Segment>)
    ensures
        segments_frames(seq![seg] + rest) == segment_frames(seg) + segments_frames(rest),
{
    assert((seq![seg] + rest).drop_first() == rest);
}

/// A read's segments account for exactly the frames it reports, and it never
/// produces more than was asked for.
pub proof fn lemma_read_segments_cover(total: int, region: Option<(usize, usize)>, pos: int, want: int)
    requires
        0 <= pos <= total <= usize::MAX,
        match region {
            Some((s, e)) => s <= e <= total,
            None => true,
        },
    ensures
        segments_frames(read_plan(total, region, pos, want).4) == read_plan(total, region, pos, want).1,
        0 <= read_plan(total, region, pos, want).1,
        want >= 0 ==> read_plan(total, region, pos, want).1 <= want,
    decreases want, past_end(region, pos),
{
    if want <= 0 {
    } else {
        match region {
            None => {
                if pos < total {
                    let chunk = min_int(want, total - pos);
                    lemma_read_segments_cover(total, region, pos + chunk, want - chunk);
                    let r = read_plan(total, region, pos + chunk, want - chunk);
                    lemma_segments_frames_cons(Segment::Run { src: pos as usize, frames: chunk as usize }, r.4);
                }
            }
            Some((s, e)) => {
                let len = e - s;
                if len <= 0 {
                } else if pos >= e {
                    lemma_read_segments_cover(total, region, s as int, want);
                } else {
                    let x = xfade_for(len);
                    let fs = e - x;
                    if pos < fs {
                        let chunk = min_int(want, fs - pos);
                        let run = Segment::Run { src: pos as usize, frames: chunk as usize };
                        if x == 0 && pos + chunk == e {
                            lemma_segments_frames_cons(run, Seq::<Segment>::empty());
                            assert(seq![run] + Seq::<Segment>::empty() == seq![run]);
                        } else {
                            lemma_read_segments_cover(total, region, pos + chunk, want - chunk);
                            let r = read_plan(total, region, pos + chunk, want - chunk);
                            lemma_segments_frames_cons(run, r.4);
                        }
                    } else {
                        let k = pos - fs;
                        let seg = Segment::Blend { tail: pos as usize, head: (s + k) as usize, k: k as usize, xfade: x as usize };
                        if pos + 1 < e {
                            lemma_read_segments_cover(total, region, pos + 1, want - 1);
                            let r = read_plan(total, region, pos + 1, want - 1);
                            lemma_segments_frames_cons(seg, r.4);
                        } else {
                            lemma_segments_frames_cons(seg, Seq::<Segment>::empty());
                            assert(seq![seg] + Seq::<Segment>::empty() == seq![seg]);
                        }
                    }
                }
            }
        }
    }
}

/// The source frames a segment reads stay below `bound`, and a blend reads
/// its tail from `[fs, e)` and its head from `[s, s + x)`.
pub open spec fn segment_within(seg: Segment, bound: int) -> bool {
    match seg {
        Segment::Run { src, frames } => src + frames <= bound,
        Segment::Blend { tail, head, k, xfade } => tail < bound && head < bound && k < xfade,
    }
}

/// A blended frame pairs tail frame `end - x + k` with head frame `start + k`,
/// where `x` is the region's crossfade length.
pub open spec fn blend_pairs_seam(seg: Segment, region: Option<(usize, usize)>) -> bool {
    seg matches Segment::Blend { tail, head, k, xfade } ==> region matches Some((s, e))
        && tail == e - xfade + k && head == s + k && xfade == xfade_for(e - s)
}

/// Every segment of `segs` stays below `bound` and below `total`, and every
/// blend pairs the seam's tail and head frames.
pub open spec fn segments_in_bounds(segs: Seq<Segment>, bound: int, total: int, region: Option<(usize, usize)>) -> bool {
    &&& forall|i: int| 0 <= i < segs.len() ==> segment_within(#[trigger] segs[i], bound)
    &&& forall|i: int| 0 <= i < segs.len() ==> segment_within(#[trigger] segs[i], total)
    &&& forall|i: int| 0 <= i < segs.len() ==> blend_pairs_seam(#[trigger] segs[i], region)
}

proof fn lemma_in_bounds_cons(seg: Segment, rest: Seq<Segment>, bound: int, total: int, region: Option<(usize, usize)>)
    requires
        segment_within(seg, bound),
        segment_within(seg, total),
        blend_pairs_seam(seg, region),
        segments_in_bounds(rest, bound, total, region),
    ensures
        segments_in_bounds(seq![seg] + rest, bound, total, region),
{
    let all = seq![seg] + rest;
    assert forall|i: int| 0 <= i < all.len() implies #[trigger] all[i] == (if i == 0 { seg } else { rest[i - 1] }) by {}
}

/// A read only ever reads frames of the song, and, with a loop set, only
/// frames before the loop end: a blend pairs tail frame `end - x + k` with
/// head frame `start + k` for `k < x`, never the loop end itself.
pub proof fn lemma_read_in_bounds(total: int, region: Option<(usize, usize)>, pos: int, want: int)
    requires
        0 <= pos <= total <= usize::MAX,
        match region {
            Some((s, e)) => s <= e <= total,
            None => true,
        },
    ensures
        segments_in_bounds(
            read_plan(total, region, pos, want).4,
            match region {
                Some((s, e)) => if pos < e || s < e { e as int } else { total },
                None => total,
            },
            total,
            region,
        ),
    decreases want, past_end(region, pos),
{
    if want <= 0 {
    } else {
        match region {
            None => {
                if pos < total {
                    let chunk = min_int(want, total - pos);
                    lemma_read_in_bounds(total, region, pos + chunk, want - chunk);
                    let r = read_plan(total, region, pos + chunk, want - chunk);
                    let run = Segment::Run { src: pos as usize, frames: chunk as usize };
                    lemma_in_bounds_cons(run, r.4, total, total, region);
                }
            }
            Some((s, e)) => {
                let len = e - s;
                if len <= 0 {
                } else if pos >= e {
                    lemma_read_in_bounds(total, region, s as int, want);
                } else {
                    let x = xfade_for(len);
                    let fs = e - x;
                    if pos < fs {
                        let chunk = min_int(want, fs - pos);
                        let run = Segment::Run { src: pos as usize, frames: chunk as usize };
                        if x == 0 && pos + chunk == e {
                            lemma_in_bounds_cons(run, Seq::empty(), e as int, total, region);
                            assert(seq![run] + Seq::<Segment>::empty() == seq![run]);
                        } else {
                            lemma_read_in_bounds(total, region, pos + chunk, want - chunk);
                            let r = read_plan(total, region, pos + chunk, want - chunk);
                            lemma_in_bounds_cons(run, r.4, e as int, total, region);
                        }
                    } else {
                        let k = pos - fs;
                        let seg = Segment::Blend { tail: pos as usize, head: (s + k) as usize, k: k as usize, xfade: x as usize };
                        if pos + 1 < e {
                            lemma_read_in_bounds(total, region, pos + 1, want - 1);
                            let r = read_plan(total, region, pos + 1, want - 1);
                            lemma_in_bounds_cons(seg, r.4, e as int, total, region);
                        } else {
                            lemma_in_bounds_cons(seg, Seq::empty(), e as int, total, region);
                            assert(seq![seg] + Seq::<Segment>::empty() == seq![seg]);
                        }
                    }
                }
            }
        }
    }
}

/// Without a loop, a read plays straight through: it yields
/// `min(want, frames left)` frames, advances by that much, never wraps, and
/// reports `finished` exactly when the song ran out before the request was met.
pub proof fn lemma_read_without_loop(total: int, pos: int, want: int)
    requires
        0 <= pos <= total,
        want >= 0,
    ensures
        ({
            let r = read_plan(total, None, pos, want);
            &&& r.1 == min_int(want, total - pos)
            &&& r.0 == pos + r.1
            &&& !r.2
            &&& r.3 == (want > total - pos)
        }),
    decreases want,
{
    if want > 0 && pos < total {
        let chunk = min_int(want, total - pos);
        lemma_read_without_loop(total, pos + chunk, want - chunk);
    }
}

/// Inside a non-empty loop region, reading from any playhead position before
/// its end for at least the frames left to the end produces exactly those
/// frames, wraps, and resumes at `start + crossfade`. So the first pass from
/// `start` lasts `end - start` frames and every later pass, from
/// `start + crossfade`, lasts `end - start - crossfade` frames — the
/// steady-state period `loop_period_frames` reports.
pub proof fn lemma_read_to_wrap(total: int, s: usize, e: usize, pos: int, want: int)
    requires
        s < e <= total,
        pos < e,
        want >= e - pos,
    ensures
        ({
            let r = read_plan(total, Some((s, e)), pos, want);
            &&& r.1 == e - pos
            &&& r.2
            &&& !r.3
            &&& r.0 == s + xfade_for(e - s)
            &&& s + xfade_for(e - s) < e
        }),
    decreases e - pos,
{
    let x = xfade_for(e - s);
    let fs = e - x;
    assert(0 <= x <= (e - s) / 4);
    if pos < fs {
        let chunk = min_int(want, fs - pos);
        assert(chunk == fs - pos);
        if !(x == 0 && pos + chunk == e) {
            lemma_read_to_wrap(total, s, e, fs, want - chunk);
        }
    } else if pos + 1 < e {
        lemma_read_to_wrap(total, s, e, pos + 1, want - 1);
    }
}

/// After a wrap, one steady pass — from `start + crossfade` to the next wrap —
/// lasts exactly `end - start - crossfade` frames, the period
/// `loop_period_frames` reports, for every non-empty loop.
pub proof fn lemma_pass_is_one_period(total: int, s: usize, e: usize, want: int)
    requires
        s < e <= total,
        want >= e - s - xfade_for(e - s),
    ensures
        ({
            let x = xfade_for(e - s);
            let r = read_plan(total, Some((s, e)), s + x, want);
            &&& r.1 == e - s - x
            &&& r.2
            &&& r.0 == s + x
        }),
{
    lemma_read_to_wrap(total, s, e, s + xfade_for(e - s), want);
}

/// A read that asks for fewer frames than are left before the loop end
/// produces all of them and moves the playhead on by as much, without
/// wrapping or finishing.
pub proof fn lemma_read_short_of_seam(total: int, s: usize, e: usize, pos: int, want: int)
    requires
        s < e <= total,
        pos < e,
        0 <= want < e - pos,
    ensures
        ({
            let r = read_plan(total, Some((s, e)), pos, want);
            &&& r.1 == want
            &&& r.0 == pos + want
            &&& !r.2
            &&& !r.3
        }),
    decreases want,
{
    if want > 0 {
        let x = xfade_for(e - s);
        let fs = e - x;
        if pos < fs {
            let chunk = min_int(want, fs - pos);
            lemma_read_short_of_seam(total, s, e, pos + chunk, want - chunk);
        } else {
            lemma_read_short_of_seam(total, s, e, pos + 1, want - 1);
        }
    }
}

/// Total of the requested sizes.
pub open spec fn sum_chunks(chunks: Seq<usize>) -> int
    decreases chunks.len(),
{
    if chunks.len() == 0 { 0 } else { chunks[0] + sum_chunks(chunks.drop_first()) }
}

/// Reads of `chunks[0]`, `chunks[1]`, ... frames one after another from
/// `pos`, stopping right after the first read that wraps: (frames produced
/// in all, playhead after the last read, whether a read wrapped).
pub open spec fn read_chunks(total: int, region: Option<(usize, usize)>, pos: int, chunks: Seq<usize>) -> (int, int, bool)
    decreases chunks.len(),
{
    if chunks.len() == 0 {
        (0, pos, false)
    } else {
        let r = read_plan(total, region, pos, chunks[0] as int);
        if r.2 {
            (r.1, r.0, true)
        } else {
            let t = read_chunks(total, region, r.0, chunks.drop_first());
            (r.1 + t.0, t.1, t.2)
        }
    }
}

proof fn lemma_sum_chunks_nonneg(chunks: Seq<usize>)
    ensures
        sum_chunks(chunks) >= 0,
    decreases chunks.len(),
{
    if chunks.len() > 0 {
        lemma_sum_chunks_nonneg(chunks.drop_first());
    }
}

/// Reads of any sizes, one after another from a playhead inside a loop,
/// play on until the loop end and no further: once the sizes add up to the
/// `e - pos` frames left before the end, exactly those frames have come out
/// and the read that took the last of them wrapped the playhead to
/// `start + x`; while they add up to less, every frame asked for came out
/// and the playhead moved on by as much.
pub proof fn lemma_chunked_reads_to_wrap(total: int, s: usize, e: usize, pos: int, chunks: Seq<usize>)
    requires
        s < e <= total,
        pos < e,
    ensures
        ({
            let r = read_chunks(total, Some((s, e)), pos, chunks);
            if sum_chunks(chunks) >= e - pos {
                r == (e - pos, s + xfade_for(e - s), true)
            } else {
                r == (sum_chunks(chunks), pos + sum_chunks(chunks), false)
            }
        }),
    decreases chunks.len(),
{
    if chunks.len() > 0 {
        let c = chunks[0] as int;
        let rest = chunks.drop_first();
        lemma_sum_chunks_nonneg(rest);
        if c >= e - pos {
            lemma_read_to_wrap(total, s, e, pos, c);
        } else {
            lemma_read_short_of_seam(total, s, e, pos, c);
            lemma_chunked_reads_to_wrap(total, s, e, pos + c, rest);
        }
    }
}

/// The loop period is what steady looping takes between wraps, whatever the
/// read sizes: from `start + x`, where a wrap leaves the playhead, reads of
/// any sizes that add up to at least the period produce exactly
/// `end - start - x` frames through the next wrap, which leaves the playhead
/// at `start + x` again.
pub proof fn lemma_loop_period_over_reads(total: int, s: usize, e: usize, chunks: Seq<usize>)
    requires
        s < e <= total,
        sum_chunks(chunks) >= e - s - xfade_for(e - s),
    ensures
        read_chunks(total, Some((s, e)), s + xfade_for(e - s), chunks)
            == (e - s - xfade_for(e - s), s + xfade_for(e - s), true),
{
    assert(xfade_for(e - s) <= (e - s) / 4);
    lemma_chunked_reads_to_wrap(total, s, e, s + xfade_for(e - s), chunks);
}

pub struct Looper {
    frames: usize,
    pos: usize,
    region: Option<(usize, usize)>,
}

impl Looper {
    #[verifier::type_invariant]
    spec fn inv(self) -> bool {
        &&& self.pos <= self.frames
        &&& match self.region {
            Some((s, e)) => s <= e <= self.frames,
            None => true,
        }
    }

    /// Length of the song in frames.
    pub closed spec fn total(self) -> nat {
        self.frames as nat
    }

    /// Current source frame.
    pub closed spec fn pos(self) -> nat {
        self.pos as nat
    }

    /// The loop region `[start, end)`, if set.
    pub closed spec fn loop_region(self) -> Option<(usize, usize)> {
        self.region
    }

    /// A looper over a song of `frames` frames, at the start, with no loop.
    pub fn new(frames: usize) -> (r: Looper)
        ensures
            r.total() == frames,
            r.pos() == 0,
            r.loop_region() is None,
    {
        Looper { frames, pos: 0, region: None }
    }

    /// The current source frame; never past the end of the song.
    pub fn pos_frames(&self) -> (r: usize)
        ensures
            r == self.pos(),
            r <= self.total(),
    {
        proof { use_type_invariant(self); }
        self.pos
    }

    /// Move the playhead, clamped to the end of the song.
    pub fn seek(&mut self, frame: usize)
        ensures
            final(self).pos() == min_int(frame as int, old(self).total() as int),
            final(self).total() == old(self).total(),
            final(self).loop_region() == old(self).loop_region(),
    {
        proof { use_type_invariant(&*self); }
        let f = self.frames;
        self.pos = if frame < f { frame } else { f };
    }

    /// Set loop `[start, end)` in frames (clamped to the song); jumps to the
    /// region's start if the playhead is outside it. Returns `true` only when
    /// the play position actually moved.
    pub fn set_region(&mut self, start: usize, end: usize) -> (moved: bool)
        ensures
            ({
                let e = min_int(end as int, old(self).total() as int);
                let s = min_int(start as int, e);
                &&& final(self).loop_region() == Some((s as usize, e as usize))
                &&& final(self).pos() == if old(self).pos() < s || old(self).pos() >= e { s } else { old(self).pos() as int }
                &&& moved == (final(self).pos() != old(self).pos())
            }),
            final(self).total() == old(self).total(),
    {
        proof { use_type_invariant(&*self); }
        let end = if end < self.frames { end } else { self.frames };
        let start = if start < end { start } else { end };
        self.region = Some((start, end));
        if self.pos < start || self.pos >= end {
            let moved = self.pos != start;
            self.pos = start;
            return moved;
        }
        false
    }

    pub fn clear_region(&mut self)
        ensures
            final(self).loop_region() is None,
            final(self).pos() == old(self).pos(),
            final(self).total() == old(self).total(),
    {
        proof { use_type_invariant(&*self); }
        self.region = None;
    }

    /// The current loop region in frames, if a loop is set.
    pub fn region(&self) -> (r: Option<(usize, usize)>)
        ensures
            r == self.loop_region(),
            match r {
                Some((s, e)) => s <= e <= self.total(),
                None => true,
            },
    {
        proof { use_type_invariant(self); }
        self.region
    }

    /// The steady-state loop period in frames: the region length less the
    /// crossfade. `None` when no region is set.
    pub fn loop_period_frames(&self) -> (r: Option<usize>)
        ensures
            match self.loop_region() {
                Some((s, e)) => r == Some((e - s - xfade_for(e - s)) as usize),
                None => r is None,
            },
    {
        proof { use_type_invariant(&*self); }
        match self.region {
            Some((start, end)) => {
                let len = end - start;
                let x = if XFADE_FRAMES < len / 4 { XFADE_FRAMES } else { len / 4 };
                Some(len - x)
            }
            None => None,
        }
    }

    /// Advance up to `frames` frames straight from the current position,
    /// ignoring the loop region (no crossfade, no wrap). Returns the number of
    /// frames taken: the source frames `[old pos, old pos + n)` are the ones
    /// to mix.
    pub fn read_contiguous(&mut self, frames: usize) -> (n: usize)
        ensures
            n == min_int(frames as int, old(self).total() - old(self).pos()),
            final(self).pos() == old(self).pos() + n,
            final(self).total() == old(self).total(),
            final(self).loop_region() == old(self).loop_region(),
    {
        proof { use_type_invariant(&*self); }
        let left = self.frames - self.pos;
        let n = if frames < left { frames } else { left };
        self.pos = self.pos + n;
        n
    }

    /// Read `frames_req` output frames: contiguous runs up to the song end or
    /// the loop's crossfade, then one blended frame at a time across the seam.
    /// Stops early when the source is exhausted (`finished`) and right after a
    /// wrap (`wrapped`), so the caller observes every wrap.
    pub fn read(&mut self, frames_req: usize) -> (r: (ReadInfo, Vec<Segment>))
        ensures
            ({
                let p = read_plan(old(self).total() as int, old(self).loop_region(), old(self).pos() as int, frames_req as int);
                &&& final(self).pos() == p.0
                &&& r.0.frames == p.1
                &&& r.0.wrapped == p.2
                &&& r.0.finished == p.3
                &&& r.1@ == p.4
            }),
            final(self).total() == old(self).total(),
            final(self).loop_region() == old(self).loop_region(),
    {
        proof { use_type_invariant(&*self); }
        let ghost total = self.frames as int;
        let ghost region = self.region;
        let ghost p0 = read_plan(total, region, self.pos as int, frames_req as int);
        let mut info = ReadInfo { frames: 0, wrapped: false, finished: false };
        let mut segs: Vec<Segment> = Vec::new();
        let mut done = false;
        while !done && info.frames < frames_req
            invariant
                total == self.total(),
                region == self.loop_region(),
                info.frames <= frames_req,
                done == (info.wrapped || info.finished),
                !done ==> ({
                    let r = read_plan(total, region, self.pos() as int, frames_req - info.frames);
                    p0 == (r.0, r.1 + info.frames, r.2, r.3, segs@ + r.4)
                }),
                done ==> p0 == (self.pos() as int, info.frames as int, info.wrapped, info.finished, segs@),
            decreases frames_req - info.frames + (if done { 0int } else { 1int }),
        {
            let remaining = frames_req - info.frames;
            let ghost before = segs@;
            let ghost pos_before = self.pos() as int;
            let (n, wrapped, finished) = self.read_step(remaining, &mut segs);
            proof {
                let added = segs@.subrange(before.len() as int, segs@.len() as int);
                assert(segs@ == before + added);
                if !(wrapped || finished) {
                    let r = read_plan(total, region, self.pos() as int, remaining - n);
                    assert(before + (added + r.4) == segs@ + r.4);
                }
            }
            info.frames = info.frames + n;
            info.wrapped = wrapped;
            info.finished = finished;
            done = wrapped || finished;
        }
        assert(segs@ + Seq::<Segment>::empty() == segs@);
        (info, segs)
    }

    /// One step of `read`: a contiguous run, one blended seam frame, or the
    /// detection that the source is exhausted.
    fn read_step(&mut self, remaining: usize, segs: &mut Vec<Segment>) -> (r: (usize, bool, bool))
        requires
            remaining > 0,
        ensures
            final(self).total() == old(self).total(),
            final(self).loop_region() == old(self).loop_region(),
            old(segs)@.len() <= final(segs)@.len(),
            final(segs)@.subrange(0, old(segs)@.len() as int) == old(segs)@,
            r.0 <= remaining,
            !(r.1 && r.2),
            ({
                let added = final(segs)@.subrange(old(segs)@.len() as int, final(segs)@.len() as int);
                let p = read_plan(old(self).total() as int, old(self).loop_region(), old(self).pos() as int, remaining as int);
                if r.1 || r.2 {
                    p == (final(self).pos() as int, r.0 as int, r.1, r.2, added)
                } else {
                    let q = read_plan(old(self).total() as int, old(self).loop_region(), final(self).pos() as int, remaining - r.0);
                    &&& r.0 > 0
                    &&& p == (q.0, q.1 + r.0, q.2, q.3, added + q.4)
                }
            }),
    {
        proof { use_type_invariant(&*self); }
        let ghost before = segs@;
        let reg = self.region;
        match reg {
            None => {
                if self.pos >= self.frames {
                    assert(segs@.subrange(before.len() as int, segs@.len() as int) == Seq::<Segment>::empty());
                    assert(segs@.subrange(0, before.len() as int) == before);
                    (0, false, true)
                } else {
                    let left = self.frames - self.pos;
                    let chunk = if remaining < left { remaining } else { left };
                    let seg = Segment::Run { src: self.pos, frames: chunk };
                    segs.push(seg);
                    self.pos = self.pos + chunk;
                    assert(segs@.subrange(before.len() as int, segs@.len() as int) == seq![seg]);
                    assert(segs@.subrange(0, before.len() as int) == before);
                    (chunk, false, false)
                }
            }
            Some((start, end)) => {
                let len = end - start;
                if len == 0 {
                    assert(segs@.subrange(before.len() as int, segs@.len() as int) == Seq::<Segment>::empty());
                    assert(segs@.subrange(0, before.len() as int) == before);
                    return (0, false, true);
                }
                if self.pos >= end {
                    // a playhead past the loop end jumps to the loop start
                    self.pos = start;
                }
                assert(read_plan(self.frames as int, reg, old(self).pos() as int, remaining as int)
                    == read_plan(self.frames as int, reg, self.pos as int, remaining as int));
                let xfade = if XFADE_FRAMES < len / 4 { XFADE_FRAMES } else { len / 4 };
                let fade_start = end - xfade;
                if self.pos < fade_start {
                    let left = fade_start - self.pos;
                    let chunk = if remaining < left { remaining } else { left };
                    let seg = Segment::Run { src: self.pos, frames: chunk };
                    segs.push(seg);
                    assert(segs@.subrange(before.len() as int, segs@.len() as int) == seq![seg]);
                    assert(segs@.subrange(0, before.len() as int) == before);
                    if xfade == 0 && self.pos + chunk == end {
                        // no room for a crossfade: wrap straight back to the start
                        self.pos = start;
                        return (chunk, true, false);
                    }
                    self.pos = self.pos + chunk;
                    (chunk, false, false)
                } else {
                    let k = self.pos - fade_start;
                    let seg = Segment::Blend { tail: self.pos, head: start + k, k, xfade };
                    segs.push(seg);
                    assert(segs@.subrange(before.len() as int, segs@.len() as int) == seq![seg]);
                    assert(segs@.subrange(0, before.len() as int) == before);
                    if self.pos >= end - 1 {
                        self.pos = start + xfade;
                        (1, true, false)
                    } else {
                        self.pos = self.pos + 1;
                        (1, false, false)
                    }
                }
            }
        }
    }
}


} // verus!
