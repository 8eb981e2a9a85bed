//! Rolling capture buffer: the most recent `capacity` frames of audio, with
//! every frame ever pushed numbered absolutely (frame `n` is the `n`-th pushed).
use vstd::prelude::*;

verus! {

/// `a` reduced into `[0, cap)` when it lies in `[0, 2 * cap)`.
pub open spec fn wrap(a: int, cap: int) -> int {
    if a >= cap { a - cap } else { a }
}

/// The last `k` items of `s` (all of `s` when it is shorter).
pub open spec fn last_n<T>(s: Seq<T>, k: int) -> Seq<T> {
    if k >= s.len() { s } else { s.subrange(s.len() - k, s.len() as int) }
}

/// How many frames a window of `cap` frames holds after `total` were pushed.
pub open spec fn held_frames(total: int, cap: int) -> int {
    if total < cap { total } else { cap }
}

pub struct RollingRing<F: Copy> {
    data: Vec<F>,
    capacity_frames: usize,
    write_frame: usize,
    filled_frames: usize,
    total_frames_written: u64,
}

impl<F: Copy> RollingRing<F> {
    /// Internal consistency: storage sized to the capacity, write head in
    /// range, and no more frames held than capacity or frames written.
    pub closed spec fn wf(self) -> bool {
        &&& self.data@.len() == self.capacity_frames
        &&& if self.capacity_frames > 0 { self.write_frame < self.capacity_frames } else { self.write_frame == 0 }
        &&& self.filled_frames <= self.capacity_frames
        &&& self.filled_frames <= self.total_frames_written
        &&& self.filled_frames == held_frames(self.total_frames_written as int, self.capacity_frames as int)
    }

    /// Frames the window holds at most.
    pub closed spec fn capacity(self) -> nat {
        self.capacity_frames as nat
    }

    /// Frames pushed since creation (including those since evicted).
    pub closed spec fn total(self) -> nat {
        self.total_frames_written as nat
    }

    /// The frames currently held, oldest first: absolute frames
    /// `[total - len, total)`.
    pub closed spec fn contents(self) -> Seq<F> {
        Seq::new(
            self.filled_frames as nat,
            |i: int| self.data@[wrap(self.write_frame + self.capacity_frames - self.filled_frames + i, self.capacity_frames as int)],
        )
    }

    /// Absolute number of the oldest frame still held.
    pub open spec fn oldest(self) -> int {
        self.total() - self.contents().len()
    }

    /// What `read_range(start, end)` answers.
    pub open spec fn spec_read_range(self, start: int, end: int) -> Option<Seq<F>> {
        if end < start || end > self.total() || start < self.oldest() {
            None
        } else {
            Some(self.contents().subrange(start - self.oldest(), end - self.oldest()))
        }
    }

    /// An empty window of `capacity_frames` frames, pre-filled with `silence`.
    pub fn with_capacity_frames(capacity_frames: usize, silence: F) -> (r: Self)
        ensures
            r.wf(),
            r.capacity() == capacity_frames,
            r.total() == 0,
            r.contents().len() == 0,
    {
        let mut data: Vec<F> = Vec::new();
        let mut i: usize = 0;
        while i < capacity_frames
            invariant
                i <= capacity_frames,
                data@.len() == i,
            decreases capacity_frames - i,
        {
            data.push(silence);
            i = i + 1;
        }
        let r = RollingRing { data, capacity_frames, write_frame: 0, filled_frames: 0, total_frames_written: 0 };
        assert(r.contents() =~= Seq::<F>::empty());
        r
    }

    /// Frames currently held: every frame written, up to the capacity.
    pub fn filled_frames(&self) -> (n: usize)
        requires
            self.wf(),
        ensures
            n == self.contents().len(),
            n == held_frames(self.total() as int, self.capacity() as int),
    {
        self.filled_frames
    }

    pub fn total_frames_written(&self) -> (n: u64)
        ensures
            n == self.total(),
    {
        self.total_frames_written
    }

    /// Append one frame, evicting the oldest when full.
    fn push_frame(&mut self, x: F)
        requires
            old(self).wf(),
            old(self).capacity() > 0,
            old(self).total() < u64::MAX,
        ensures
            final(self).wf(),
            final(self).capacity() == old(self).capacity(),
            final(self).total() == old(self).total() + 1,
            final(self).contents() == last_n(old(self).contents().push(x), old(self).capacity() as int),
    {
                let ghost old_view = self.contents();
        let ghost cap = self.capacity_frames as int;
        let ghost w = self.write_frame as int;
        let ghost f = self.filled_frames as int;
        let wf = self.write_frame;
        self.data.set(wf, x);
        self.write_frame = if wf + 1 == self.capacity_frames { 0 } else { wf + 1 };
        if self.filled_frames < self.capacity_frames {
            self.filled_frames = self.filled_frames + 1;
        }
        self.total_frames_written = self.total_frames_written + 1;
        proof {
            let nv = self.contents();
            let expect = last_n(old_view.push(x), cap);
            if f < cap {
                assert(expect == old_view.push(x));
                assert forall|i: int| 0 <= i < nv.len() implies nv[i] == expect[i] by {
                    if i < f {
                        assert(wrap(w + cap - f + i, cap) != w);
                    }
                }
                assert(nv =~= expect);
            } else {
                assert(expect == old_view.push(x).subrange(1, cap + 1));
                assert forall|i: int| 0 <= i < nv.len() implies nv[i] == expect[i] by {
                    if i < cap - 1 {
                        assert(wrap(w + 1 + i, cap) != w);
                        assert(old_view[i + 1] == self.data@[wrap(w + 1 + i, cap)]);
                    }
                }
                assert(nv =~= expect);
            }
        }
    }

    /// Push frames (any count; may exceed the capacity, in which case only
    /// the tail survives). With no capacity nothing is recorded at all.
    pub fn push(&mut self, frames: &[F])
        requires
            old(self).wf(),
            old(self).total() + frames@.len() <= u64::MAX,
        ensures
            final(self).wf(),
            final(self).capacity() == old(self).capacity(),
            old(self).capacity() == 0 ==> final(self).total() == old(self).total()
                && final(self).contents() == old(self).contents(),
            old(self).capacity() > 0 ==> final(self).total() == old(self).total() + frames@.len()
                && final(self).contents() == last_n(old(self).contents() + frames@, old(self).capacity() as int),
    {
                if self.capacity_frames == 0 {
            return;
        }
        let n = frames.len();
        let skip = if n > self.capacity_frames { n - self.capacity_frames } else { 0 };
        let ghost start_view = self.contents();
        let ghost start_total = self.total();
        let ghost cap = self.capacity() as int;
        proof {
            assert(frames@.subrange(skip as int, skip as int) =~= Seq::<F>::empty());
            assert(start_view + Seq::<F>::empty() == start_view);
            assert(last_n(start_view, cap) == start_view);
        }
        let mut i = skip;
        while i < n
            invariant
                skip <= i <= n,
                n == frames@.len(),
                self.capacity() == cap,
                cap > 0,
                skip == (if n > cap { n - cap } else { 0 }),
                self.wf(),
                self.total() == start_total + (i - skip),
                start_total + n <= u64::MAX,
                self.contents() == last_n(start_view + frames@.subrange(skip as int, i as int), cap),
            decreases n - i,
        {
            proof {
                let a = start_view + frames@.subrange(skip as int, i as int);
                assert(a.push(frames@[i as int]) == start_view + frames@.subrange(skip as int, i + 1));
                lemma_last_n_push(a, frames@[i as int], cap);
            }
            self.push_frame(frames[i]);
            i = i + 1;
        }
        // the frames skipped above would have been evicted anyway: count them
        self.total_frames_written = self.total_frames_written + skip as u64;
        proof {
            if skip == 0 {
                assert(frames@.subrange(0, n as int) == frames@);
            } else {
                // the tail alone fills the window: everything older was evicted
                let all = start_view + frames@;
                let kept = start_view + frames@.subrange(skip as int, n as int);
                assert(last_n(kept, cap) =~= frames@.subrange(skip as int, n as int));
                assert(last_n(all, cap) =~= frames@.subrange(skip as int, n as int));
            }
        }
    }

    /// Frames for the absolute range `[start, end)`, or `None` if any of it
    /// has been evicted from the window or `end` is past what's been written.
    pub fn read_range(&self, start: u64, end: u64) -> (r: Option<Vec<F>>)
        requires
            self.wf(),
        ensures
            match r {
                Some(v) => self.spec_read_range(start as int, end as int) == Some(v@),
                None => self.spec_read_range(start as int, end as int) is None,
            },
    {
                if end < start || end > self.total_frames_written {
            return None;
        }
        let oldest = self.total_frames_written - self.filled_frames as u64;
        if start < oldest {
            return None;
        }
        if self.capacity_frames == 0 {
            let v: Vec<F> = Vec::new();
            proof {
                assert(self.contents().subrange(start - self.oldest(), end - self.oldest()) =~= v@);
            }
            return Some(v);
        }
        let cap = self.capacity_frames as u64;
        let mut out: Vec<F> = Vec::new();
        let mut f = start;
        while f < end
            invariant
                start <= f <= end <= self.total(),
                oldest == self.oldest(),
                oldest <= start,
                cap == self.capacity_frames,
                cap > 0,
                self.data@.len() == cap,
                self.wf(),
                self.write_frame < cap,
                self.filled_frames <= cap,
                self.filled_frames <= self.total_frames_written,
                out@ == self.contents().subrange(start - oldest, f - oldest),
            decreases end - f,
        {
            let behind = self.total_frames_written - f;
            let w = self.write_frame as u64;
            let idx = if w >= behind { w - behind } else { w + (cap - behind) };
            proof {
                assert(idx == wrap(self.write_frame + self.capacity_frames - self.filled_frames + (f - oldest), self.capacity_frames as int));
                assert(self.contents().subrange(start - oldest, f + 1 - oldest)
                    == self.contents().subrange(start - oldest, f - oldest).push(self.contents()[f - oldest]));
            }
            out.push(self.data[idx as usize]);
            f = f + 1;
        }
        Some(out)
    }

    /// The last `want` frames (clamped to what's held), oldest first.
    pub fn snapshot_last(&self, want: usize) -> (r: Vec<F>)
        requires
            self.wf(),
        ensures
            r@ == last_n(self.contents(), want as int),
    {
                let k = if want < self.filled_frames { want } else { self.filled_frames };
        let mut out: Vec<F> = Vec::new();
        if k == 0 {
            assert(last_n(self.contents(), want as int) =~= out@);
            return out;
        }
        let cap = self.capacity_frames;
        let w = self.write_frame;
        let start = if w >= k { w - k } else { w + (cap - k) };
        let mut i: usize = 0;
        let ghost base = self.contents().len() - k;
        while i < k
            invariant
                0 < k <= self.filled_frames <= cap,
                k == (if want < self.contents().len() { want as int } else { self.contents().len() as int }),
                base == self.contents().len() - k,
                cap == self.capacity_frames,
                w == self.write_frame,
                w < cap,
                self.wf(),
                self.data@.len() == cap,
                start == wrap(w + cap - k, cap as int),
                i <= k,
                out@ == self.contents().subrange(base, base + i),
            decreases k - i,
        {
            let idx = if i >= cap - start { i - (cap - start) } else { start + i };
            proof {
                assert(idx == wrap(self.write_frame + self.capacity_frames - self.filled_frames + (base + i), self.capacity_frames as int));
                assert(self.contents().subrange(base, base + i + 1)
                    == self.contents().subrange(base, base + i).push(self.contents()[base + i]));
            }
            out.push(self.data[idx]);
            i = i + 1;
        }
        proof {
            assert(out@ =~= last_n(self.contents(), want as int));
        }
        out
    }
}

proof fn lemma_last_n_push<T>(a: Seq<T>, x: T, cap: int)
    requires
        cap > 0,
    ensures
        last_n(last_n(a, cap).push(x), cap) == last_n(a.push(x), cap),
{
    let l = last_n(a, cap);
    assert(last_n(l.push(x), cap) =~= last_n(a.push(x), cap));
}

/// Reading the absolute range that ends at the write head returns exactly
/// the most recent frames, the same as a snapshot of that many frames.
pub proof fn lemma_read_range_matches_snapshot<F: Copy>(r: RollingRing<F>, k: int)
    requires
        r.wf(),
        0 <= k <= r.contents().len(),
    ensures
        r.spec_read_range(r.total() - k, r.total() as int) == Some(last_n(r.contents(), k)),
{
    assert(r.contents().subrange(r.contents().len() - k, r.contents().len() as int) =~= last_n(r.contents(), k)
        || k == r.contents().len());
    if k == r.contents().len() {
        assert(r.contents().subrange(0, r.contents().len() as int) =~= r.contents());
    }
}

} // verus!
