//! Practice-plan runner: walks a plan's steps rep by rep, yielding for each
//! rep which loop to play, in which mode, and at what pace. Steps run in
//! order; a step with no reps left (or none at all) is skipped.
use vstd::prelude::*;
use crate::model::{LoopId, SongId};

verus! {

#[derive(Debug, Clone, Copy, PartialEq, Eq, Hash, Structural)]
pub struct PlanId(pub i64);

/// One step of a practice plan. `C` is the tempo-curve type a playing step
/// paces its reps with; `R` is a fixed playback rate.
#[derive(Debug, Clone, PartialEq)]
pub enum PlanStep<C, R> {
    /// Listen to the loop `reps` times before playing.
    ListenFirst { loop_id: LoopId, reps: u32 },
    /// Play the loop `reps` times, paced by the curve rep by rep.
    PlayReps { loop_id: LoopId, reps: u32, curve: C },
    /// Interleave several loops: `rounds` passes over the list, `reps_per_visit`
    /// reps each visit; the curve advances once per visit to the same loop.
    Rotation { loop_ids: Vec<LoopId>, rounds: u32, reps_per_visit: u32, curve: C },
    /// Alternate playing along and playing from memory, `alternations` times.
    RecallTest { loop_id: LoopId, alternations: u32, rate: R },
}

#[derive(Debug, Clone, PartialEq)]
pub struct Plan<C, R> {
    pub id: PlanId,
    pub song_id: SongId,
    pub name: String,
    pub steps: Vec<PlanStep<C, R>>,
}

#[derive(Debug, Clone, Copy, PartialEq, Eq, Structural)]
pub enum RepMode {
    /// Playback only — instrument down, ears on.
    Listen,
    /// Play along with the recording.
    Play,
    /// Recording muted — play the passage from memory.
    RecallSilent,
}

/// The playback rate of a rep.
#[derive(Debug, Clone, Copy, PartialEq)]
pub enum Pace<R> {
    /// The original tempo.
    Original,
    /// The step's tempo curve evaluated at this 0-based index.
    Curve(u32),
    /// This fixed rate.
    Fixed(R),
}

/// One rep to perform.
#[derive(Debug, Clone, Copy, PartialEq)]
pub struct RepSpec<R> {
    pub loop_id: LoopId,
    pub pace: Pace<R>,
    pub mode: RepMode,
    pub step_idx: usize,
    pub rep_idx: u32,
}

/// Reps a step holds.
pub open spec fn step_total<C, R>(step: PlanStep<C, R>) -> int {
    match step {
        PlanStep::ListenFirst { reps, .. } => reps as int,
        PlanStep::PlayReps { reps, .. } => reps as int,
        PlanStep::Rotation { loop_ids, rounds, reps_per_visit, .. } => loop_ids@.len() * rounds * reps_per_visit,
        PlanStep::RecallTest { alternations, .. } => alternations * 2,
    }
}

/// A step's rep count (and the partial product it is computed through)
/// fits in a `u32`.
pub open spec fn step_fits<C, R>(step: PlanStep<C, R>) -> bool {
    &&& 0 <= step_total(step) <= u32::MAX
    &&& match step {
        PlanStep::Rotation { loop_ids, rounds, .. } => loop_ids@.len() * rounds <= u32::MAX,
        _ => true,
    }
}

/// Every step of the plan has a rep count that fits in a `u32`.
pub open spec fn plan_fits<C, R>(plan: Plan<C, R>) -> bool {
    forall|k: int| 0 <= k < plan.steps@.len() ==> step_fits(#[trigger] plan.steps@[k])
}

/// The position `(step, rep)` the runner resolves to from `(s, r)`: the first
/// rep not yet done, skipping exhausted and empty steps; `None` when the plan
/// is finished.
pub open spec fn resolve<C, R>(steps: Seq<PlanStep<C, R>>, s: int, r: int) -> Option<(int, int)>
    decreases steps.len() - s,
{
    if s < 0 || s >= steps.len() {
        None
    } else if r < step_total(steps[s]) {
        Some((s, r))
    } else {
        resolve(steps, s + 1, 0)
    }
}

/// The rep at position `(s, r)` of a step.
pub open spec fn rep_at<C, R>(step: PlanStep<C, R>, s: int, r: int) -> RepSpec<R> {
    match step {
        PlanStep::ListenFirst { loop_id, .. } => RepSpec {
            loop_id, pace: Pace::Original, mode: RepMode::Listen, step_idx: s as usize, rep_idx: r as u32,
        },
        PlanStep::PlayReps { loop_id, .. } => RepSpec {
            loop_id, pace: Pace::Curve(r as u32), mode: RepMode::Play, step_idx: s as usize, rep_idx: r as u32,
        },
        PlanStep::Rotation { loop_ids, reps_per_visit, .. } => {
            let per = if reps_per_visit > 0 { reps_per_visit as int } else { 1 };
            let visit = r / per;
            RepSpec {
                loop_id: loop_ids@[visit % loop_ids@.len() as int],
                pace: Pace::Curve((visit / loop_ids@.len() as int) as u32),
                mode: RepMode::Play,
                step_idx: s as usize,
                rep_idx: r as u32,
            }
        },
        PlanStep::RecallTest { loop_id, rate, .. } => RepSpec {
            loop_id,
            pace: Pace::Fixed(rate),
            mode: if r % 2 == 0 { RepMode::Play } else { RepMode::RecallSilent },
            step_idx: s as usize,
            rep_idx: r as u32,
        },
    }
}

/// Reps left to perform from position `(s, r)`.
pub open spec fn reps_left<C, R>(steps: Seq<PlanStep<C, R>>, s: int, r: int) -> int
    decreases steps.len() - s,
{
    if s < 0 || s >= steps.len() {
        0
    } else {
        (if r < step_total(steps[s]) { step_total(steps[s]) - r } else { 0 }) + reps_left(steps, s + 1, 0)
    }
}

pub struct PlanRunner<C, R> {
    plan: Plan<C, R>,
    step_idx: usize,
    rep_idx: u32,
}

impl<C, R: Copy> PlanRunner<C, R> {
    /// The plan being run.
    pub closed spec fn steps(self) -> Seq<PlanStep<C, R>> {
        self.plan.steps@
    }

    /// The stored position: the next rep is the first one at or after it.
    pub closed spec fn position(self) -> (int, int) {
        (self.step_idx as int, self.rep_idx as int)
    }

    pub closed spec fn wf(self) -> bool {
        plan_fits(self.plan)
    }

    /// The next rep, if any.
    pub open spec fn spec_current(self) -> Option<RepSpec<R>> {
        match resolve(self.steps(), self.position().0, self.position().1) {
            Some((s, r)) => Some(rep_at(self.steps()[s], s, r)),
            None => None,
        }
    }

    /// `after` is what advancing `self` leaves: the same plan, one rep on
    /// (or unchanged once finished).
    pub open spec fn advances_to(self, after: Self) -> bool {
        &&& after.wf()
        &&& after.steps() == self.steps()
        &&& match resolve(self.steps(), self.position().0, self.position().1) {
            Some((s, k)) => after.position() == (s, k + 1),
            None => after.position() == self.position(),
        }
    }

    /// Reps still to come.
    pub open spec fn remaining(self) -> int {
        reps_left(self.steps(), self.position().0, self.position().1)
    }

    /// A runner at the plan's first rep. Every step's rep count must fit a
    /// `u32` (larger counts overflow the rep arithmetic).
    pub fn new(plan: Plan<C, R>) -> (r: Self)
        requires
            plan_fits(plan),
        ensures
            r.wf(),
            r.steps() == plan.steps@,
            r.position() == (0int, 0int),
    {
        PlanRunner { plan, step_idx: 0, rep_idx: 0 }
    }

    fn step_total_reps(step: &PlanStep<C, R>) -> (n: u32)
        requires
            step_fits(*step),
        ensures
            n == step_total(*step),
    {
        match step {
            PlanStep::ListenFirst { reps, .. } => *reps,
            PlanStep::PlayReps { reps, .. } => *reps,
            PlanStep::Rotation { loop_ids, rounds, reps_per_visit, .. } => {
                if *rounds == 0 {
                    assert(loop_ids@.len() * *rounds * *reps_per_visit == 0) by (nonlinear_arith)
                        requires *rounds == 0;
                    return 0;
                }
                assert(loop_ids@.len() <= loop_ids@.len() * *rounds) by (nonlinear_arith)
                    requires *rounds >= 1;
                let len = loop_ids.len() as u32;
                let a = len * *rounds;
                assert(a * *reps_per_visit == step_total(*step)) by (nonlinear_arith)
                    requires a == len * *rounds, len == loop_ids@.len(),
                        step_total(*step) == loop_ids@.len() * *rounds * *reps_per_visit;
                a * *reps_per_visit
            }
            PlanStep::RecallTest { alternations, .. } => *alternations * 2,
        }
    }

    fn spec_of(step: &PlanStep<C, R>, step_idx: usize, rep_idx: u32) -> (r: RepSpec<R>)
        requires
            step_fits(*step),
            rep_idx < step_total(*step),
        ensures
            r == rep_at(*step, step_idx as int, rep_idx as int),
    {
        match step {
            PlanStep::ListenFirst { loop_id, .. } => RepSpec {
                loop_id: *loop_id, pace: Pace::Original, mode: RepMode::Listen, step_idx, rep_idx,
            },
            PlanStep::PlayReps { loop_id, .. } => RepSpec {
                loop_id: *loop_id, pace: Pace::Curve(rep_idx), mode: RepMode::Play, step_idx, rep_idx,
            },
            PlanStep::Rotation { loop_ids, reps_per_visit, rounds, .. } => {
                let per = if *reps_per_visit > 0 { *reps_per_visit } else { 1 };
                let visit = rep_idx / per;
                let len = loop_ids.len();
                proof {
                    // a rotation with reps has loops in it, and at least one round
                    if loop_ids@.len() == 0 {
                        assert(loop_ids@.len() * *rounds * *reps_per_visit == 0) by (nonlinear_arith)
                            requires loop_ids@.len() == 0;
                    }
                    if *rounds == 0 {
                        assert(loop_ids@.len() * *rounds * *reps_per_visit == 0) by (nonlinear_arith)
                            requires *rounds == 0;
                    }
                    assert(loop_ids@.len() <= loop_ids@.len() * *rounds) by (nonlinear_arith)
                        requires *rounds >= 1;
                }
                let slot = (visit as usize) % len;
                let visits_to_this_loop = visit / (len as u32);
                RepSpec {
                    loop_id: loop_ids[slot],
                    pace: Pace::Curve(visits_to_this_loop),
                    mode: RepMode::Play,
                    step_idx,
                    rep_idx,
                }
            }
            PlanStep::RecallTest { loop_id, rate, .. } => RepSpec {
                loop_id: *loop_id,
                pace: Pace::Fixed(*rate),
                mode: if rep_idx % 2 == 0 { RepMode::Play } else { RepMode::RecallSilent },
                step_idx,
                rep_idx,
            },
        }
    }

    /// Resolve the stored position to the next rep: `(step, rep)`.
    fn resolve_position(&self) -> (r: Option<(usize, u32)>)
        requires
            self.wf(),
        ensures
            match r {
                Some((s, k)) => resolve(self.steps(), self.position().0, self.position().1) == Some((s as int, k as int))
                    && s < self.steps().len(),
                None => resolve(self.steps(), self.position().0, self.position().1) is None,
            },
    {
        let mut step_idx = self.step_idx;
        let mut rep_idx = self.rep_idx;
        let n = self.plan.steps.len();
        while step_idx < n
            invariant
                n == self.plan.steps@.len(),
                plan_fits(self.plan),
                resolve(self.steps(), self.position().0, self.position().1)
                    == resolve(self.steps(), step_idx as int, rep_idx as int),
            decreases n - step_idx,
        {
            let step = &self.plan.steps[step_idx];
            proof { assert(step_fits(self.plan.steps@[step_idx as int])); }
            if rep_idx < Self::step_total_reps(step) {
                return Some((step_idx, rep_idx));
            }
            step_idx = step_idx + 1;
            rep_idx = 0;
        }
        None
    }

    /// The next rep to perform, or `None` once the plan is finished.
    pub fn current(&self) -> (r: Option<RepSpec<R>>)
        requires
            self.wf(),
        ensures
            r == self.spec_current(),
    {
        match self.resolve_position() {
            Some((s, k)) => {
                proof {
                    lemma_resolve_in_step(self.steps(), self.position().0, self.position().1);
                    assert(step_fits(self.plan.steps@[s as int]));
                }
                Some(Self::spec_of(&self.plan.steps[s], s, k))
            }
            None => None,
        }
    }

    /// Move past the current rep (no-op once finished).
    pub fn advance(&mut self)
        requires
            old(self).wf(),
        ensures
            final(self).wf(),
            final(self).steps() == old(self).steps(),
            match resolve(old(self).steps(), old(self).position().0, old(self).position().1) {
                Some((s, k)) => final(self).position() == (s, k + 1),
                None => final(self).position() == old(self).position(),
            },
            old(self).advances_to(*final(self)),
    {
        match self.resolve_position() {
            Some((s, k)) => {
                proof {
                    lemma_resolve_in_step(self.steps(), self.position().0, self.position().1);
                    assert(step_fits(self.plan.steps@[s as int]));
                }
                self.step_idx = s;
                self.rep_idx = k + 1;
            }
            None => {}
        }
    }

    /// Skip the rest of the current step (no-op once finished).
    pub fn skip_step(&mut self)
        requires
            old(self).wf(),
        ensures
            final(self).wf(),
            final(self).steps() == old(self).steps(),
            match resolve(old(self).steps(), old(self).position().0, old(self).position().1) {
                Some((s, k)) => final(self).position() == (s + 1, 0int),
                None => final(self).position() == old(self).position(),
            },
    {
        let n = self.plan.steps.len();
        match self.resolve_position() {
            Some((s, _k)) => {
                assert(s < n);
                self.step_idx = s + 1;
                self.rep_idx = 0;
            }
            None => {}
        }
    }
}

/// A resolved position lies inside its step's reps, at or after where the
/// search started.
pub proof fn lemma_resolve_in_step<C, R>(steps: Seq<PlanStep<C, R>>, s: int, r: int)
    requires
        r >= 0,
    ensures
        match resolve(steps, s, r) {
            Some((s2, r2)) => 0 <= s2 < steps.len() && 0 <= r2 < step_total(steps[s2]) && s <= s2
                && (s2 == s ==> r2 == r) && (s2 > s ==> r2 == 0),
            None => true,
        },
    decreases steps.len() - s,
{
    if 0 <= s < steps.len() && r >= step_total(steps[s]) {
        lemma_resolve_in_step(steps, s + 1, 0);
    }
}

proof fn lemma_reps_left_nonneg<C, R>(steps: Seq<PlanStep<C, R>>, s: int, r: int)
    requires
        forall|k: int| 0 <= k < steps.len() ==> step_fits(#[trigger] steps[k]),
    ensures
        reps_left(steps, s, r) >= 0,
    decreases steps.len() - s,
{
    if 0 <= s < steps.len() {
        lemma_reps_left_nonneg(steps, s + 1, 0);
        assert(step_fits(steps[s]));
    }
}

/// Resolving never skips reps: the reps left from a position equal those left
/// from the position it resolves to, and nothing is left once it resolves to
/// `None`.
pub proof fn lemma_resolve_keeps_reps_left<C, R>(steps: Seq<PlanStep<C, R>>, s: int, r: int)
    requires
        forall|k: int| 0 <= k < steps.len() ==> step_fits(#[trigger] steps[k]),
        s >= 0,
        r >= 0,
    ensures
        match resolve(steps, s, r) {
            Some((s2, r2)) => reps_left(steps, s, r) == reps_left(steps, s2, r2),
            None => reps_left(steps, s, r) == 0,
        },
    decreases steps.len() - s,
{
    if s < steps.len() && r >= step_total(steps[s]) {
        lemma_resolve_keeps_reps_left(steps, s + 1, 0);
    }
}

/// Running a plan performs every rep of every step exactly once: while reps
/// remain there is a current rep, and advancing past it leaves exactly one
/// rep fewer; when none remain the runner is finished. So draining a runner
/// yields the sum of the steps' rep counts.
pub proof fn lemma_advance_consumes_one_rep<C, R: Copy>(before: PlanRunner<C, R>, after: PlanRunner<C, R>)
    requires
        before.wf(),
        before.position().0 >= 0,
        before.position().1 >= 0,
        after.steps() == before.steps(),
        match resolve(before.steps(), before.position().0, before.position().1) {
            Some((s, k)) => after.position() == (s, k + 1),
            None => after.position() == before.position(),
        },
    ensures
        before.spec_current() is None <==> before.remaining() == 0,
        before.spec_current() is Some ==> after.remaining() == before.remaining() - 1,
        before.spec_current() is None ==> after.remaining() == 0,
{
    let steps = before.steps();
    let (s0, r0) = before.position();
    lemma_resolve_keeps_reps_left(steps, s0, r0);
    lemma_resolve_in_step(steps, s0, r0);
    match resolve(steps, s0, r0) {
        Some((s, k)) => {
            lemma_reps_left_nonneg(steps, s + 1, 0);
            assert(reps_left(steps, s, k) == step_total(steps[s]) - k + reps_left(steps, s + 1, 0));
            assert(reps_left(steps, s, k + 1) == (if k + 1 < step_total(steps[s]) { step_total(steps[s]) - k - 1 } else { 0 }) + reps_left(steps, s + 1, 0));
        }
        None => {}
    }
}

/// The reps of step `i` from rep `from` on, in order.
pub open spec fn step_reps<C, R>(steps: Seq<PlanStep<C, R>>, i: int, from: int) -> Seq<RepSpec<R>> {
    let n = step_total(steps[i]) - from;
    Seq::new(if n > 0 { n as nat } else { 0nat }, |j: int| rep_at(steps[i], i, from + j))
}

/// Every rep still to come from position `(s, r)`, in the order a runner
/// yields them: the rest of step `s`, then each later step's reps.
pub open spec fn upcoming<C, R>(steps: Seq<PlanStep<C, R>>, s: int, r: int) -> Seq<RepSpec<R>>
    decreases steps.len() - s,
{
    if s < 0 || s >= steps.len() {
        Seq::empty()
    } else {
        step_reps(steps, s, r) + upcoming(steps, s + 1, 0)
    }
}

/// Rep `a` comes before rep `b`: an earlier step, or an earlier rep of the
/// same step.
pub open spec fn comes_before<R>(a: RepSpec<R>, b: RepSpec<R>) -> bool {
    a.step_idx < b.step_idx || (a.step_idx == b.step_idx && a.rep_idx < b.rep_idx)
}

proof fn lemma_rep_at_position<C, R>(step: PlanStep<C, R>, s: int, r: int)
    ensures
        rep_at(step, s, r).step_idx == s as usize,
        rep_at(step, s, r).rep_idx == r as u32,
{
}

proof fn lemma_upcoming_resolve<C, R>(steps: Seq<PlanStep<C, R>>, s: int, r: int)
    requires
        s >= 0,
        r >= 0,
    ensures
        match resolve(steps, s, r) {
            Some((s2, k)) => upcoming(steps, s, r) == upcoming(steps, s2, k),
            None => upcoming(steps, s, r).len() == 0,
        },
    decreases steps.len() - s,
{
    if s < steps.len() && r >= step_total(steps[s]) {
        lemma_upcoming_resolve(steps, s + 1, 0);
        assert(step_reps(steps, s, r) =~= Seq::<RepSpec<R>>::empty());
        assert(upcoming(steps, s, r) =~= upcoming(steps, s + 1, 0));
    }
}

proof fn lemma_upcoming_first<C, R>(steps: Seq<PlanStep<C, R>>, s: int, k: int)
    requires
        0 <= s < steps.len(),
        0 <= k < step_total(steps[s]),
    ensures
        upcoming(steps, s, k) == seq![rep_at(steps[s], s, k)] + upcoming(steps, s, k + 1),
{
    assert(step_reps(steps, s, k) =~= seq![rep_at(steps[s], s, k)] + step_reps(steps, s, k + 1));
    assert(upcoming(steps, s, k + 1) == step_reps(steps, s, k + 1) + upcoming(steps, s + 1, 0));
    assert(upcoming(steps, s, k) =~= seq![rep_at(steps[s], s, k)] + upcoming(steps, s, k + 1));
}

/// Draining a runner yields its upcoming reps one at a time: the current rep
/// is the first of them and advancing leaves exactly the rest; a finished
/// runner has none left and advancing it changes nothing.
pub proof fn lemma_drain_step<C, R: Copy>(before: PlanRunner<C, R>, after: PlanRunner<C, R>)
    requires
        before.wf(),
        before.position().0 >= 0,
        before.position().1 >= 0,
        after.steps() == before.steps(),
        match resolve(before.steps(), before.position().0, before.position().1) {
            Some((s, k)) => after.position() == (s, k + 1),
            None => after.position() == before.position(),
        },
    ensures
        ({
            let up = upcoming(before.steps(), before.position().0, before.position().1);
            let rest = upcoming(after.steps(), after.position().0, after.position().1);
            match before.spec_current() {
                Some(x) => up == seq![x] + rest,
                None => up.len() == 0 && after.position() == before.position(),
            }
        }),
{
    let steps = before.steps();
    let (s0, r0) = before.position();
    lemma_upcoming_resolve(steps, s0, r0);
    lemma_resolve_in_step(steps, s0, r0);
    match resolve(steps, s0, r0) {
        Some((s, k)) => {
            lemma_upcoming_first(steps, s, k);
        }
        None => {}
    }
}

/// Nothing still to come is left out: from position `(s, r)` a runner
/// yields rep `k` of every later step `t`, and of step `s` itself for every
/// `k >= r`.
pub proof fn lemma_upcoming_complete<C, R>(steps: Seq<PlanStep<C, R>>, s: int, r: int, t: int, k: int)
    requires
        0 <= s <= t < steps.len(),
        r >= 0,
        0 <= k < step_total(steps[t]),
        t == s ==> k >= r,
    ensures
        exists|i: int| 0 <= i < upcoming(steps, s, r).len()
            && #[trigger] upcoming(steps, s, r)[i] == rep_at(steps[t], t, k),
    decreases t - s,
{
    let a = step_reps(steps, s, r);
    let b = upcoming(steps, s + 1, 0);
    assert(upcoming(steps, s, r) == a + b);
    if t == s {
        let i = k - r;
        assert(a[i] == rep_at(steps[t], t, k));
        assert((a + b)[i] == a[i]);
    } else {
        lemma_upcoming_complete(steps, s + 1, 0, t, k);
        let j = choose|j: int| 0 <= j < b.len() && #[trigger] b[j] == rep_at(steps[t], t, k);
        assert((a + b)[a.len() + j] == b[j]);
    }
}

/// What a runner yields from position `(s, r)`: as many reps as are left,
/// each one the plan's rep at its own (step, rep) position inside its step,
/// in strictly increasing (step, rep) order — so every rep of every later
/// step, and of step `s` from rep `r` on, comes exactly once and in order.
pub proof fn lemma_upcoming_shape<C, R>(steps: Seq<PlanStep<C, R>>, s: int, r: int)
    requires
        forall|k: int| 0 <= k < steps.len() ==> step_fits(#[trigger] steps[k]),
        steps.len() <= usize::MAX,
        s >= 0,
        r >= 0,
    ensures
        ({
            let up = upcoming(steps, s, r);
            &&& up.len() == reps_left(steps, s, r)
            &&& forall|i: int| 0 <= i < up.len() ==> {
                let x = #[trigger] up[i];
                &&& s <= x.step_idx < steps.len()
                &&& x.rep_idx < step_total(steps[x.step_idx as int])
                &&& (x.step_idx == s ==> x.rep_idx >= r)
                &&& x == rep_at(steps[x.step_idx as int], x.step_idx as int, x.rep_idx as int)
            }
            &&& forall|i: int, j: int| 0 <= i < j < up.len() ==> comes_before(#[trigger] up[i], #[trigger] up[j])
        }),
    decreases steps.len() - s,
{
    if s < steps.len() {
        lemma_upcoming_shape(steps, s + 1, 0);
        lemma_reps_left_nonneg(steps, s + 1, 0);
        assert(step_fits(steps[s]));
        let a = step_reps(steps, s, r);
        let b = upcoming(steps, s + 1, 0);
        let up = a + b;
        assert(up == upcoming(steps, s, r));
        assert forall|j: int| 0 <= j < a.len() implies {
            let x = #[trigger] a[j];
            &&& x.step_idx == s
            &&& x.rep_idx == r + j
            &&& x.rep_idx < step_total(steps[s])
            &&& x == rep_at(steps[x.step_idx as int], x.step_idx as int, x.rep_idx as int)
        } by {
            lemma_rep_at_position(steps[s], s, r + j);
        }
        assert forall|i: int| 0 <= i < up.len() implies {
            let x = #[trigger] up[i];
            &&& s <= x.step_idx < steps.len()
            &&& x.rep_idx < step_total(steps[x.step_idx as int])
            &&& (x.step_idx == s ==> x.rep_idx >= r)
            &&& x == rep_at(steps[x.step_idx as int], x.step_idx as int, x.rep_idx as int)
        } by {
            if i < a.len() {
                assert(up[i] == a[i]);
            } else {
                assert(up[i] == b[i - a.len()]);
            }
        }
        assert forall|i: int, j: int| 0 <= i < j < up.len() implies comes_before(#[trigger] up[i], #[trigger] up[j]) by {
            if j < a.len() {
                assert(up[i] == a[i] && up[j] == a[j]);
            } else if i < a.len() {
                assert(up[i] == a[i] && up[j] == b[j - a.len()]);
            } else {
                assert(up[i] == b[i - a.len()] && up[j] == b[j - a.len()]);
            }
        }
    }
}


/// The reps a drained run yields from entry `k` of `trace` on.
pub open spec fn yielded_from<C, R: Copy>(trace: Seq<PlanRunner<C, R>>, k: int) -> Seq<RepSpec<R>> {
    Seq::new((trace.len() - 1 - k) as nat, |i: int| trace[k + i].spec_current().unwrap())
}

/// `trace` is a drain: each runner but the last has a current rep and
/// advances to the next, and the last is finished.
pub open spec fn is_drain<C, R: Copy>(trace: Seq<PlanRunner<C, R>>) -> bool {
    &&& trace.len() > 0
    &&& trace[0].wf()
    &&& forall|i: int| 0 <= i < trace.len() - 1 ==> (#[trigger] trace[i]).spec_current() is Some
        && trace[i].advances_to(trace[i + 1])
    &&& trace.last().spec_current() is None
}

proof fn lemma_yielded_cons<C, R: Copy>(trace: Seq<PlanRunner<C, R>>, k: int)
    requires
        0 <= k < trace.len() - 1,
    ensures
        yielded_from(trace, k) == seq![trace[k].spec_current().unwrap()] + yielded_from(trace, k + 1),
{
    assert(yielded_from(trace, k) =~= seq![trace[k].spec_current().unwrap()] + yielded_from(trace, k + 1));
}

#[verifier::spinoff_prover]
proof fn lemma_drain_from<C, R: Copy>(trace: Seq<PlanRunner<C, R>>, k: int)
    requires
        is_drain(trace),
        0 <= k < trace.len(),
        trace[k].wf(),
        trace[k].steps() == trace[0].steps(),
    ensures
        yielded_from(trace, k) == upcoming(trace[0].steps(), trace[k].position().0, trace[k].position().1),
    decreases trace.len() - k,
{
    let b = trace[k];
    if k == trace.len() - 1 {
        lemma_drain_step(b, b);
        assert(yielded_from(trace, k) =~= Seq::<RepSpec<R>>::empty());
    } else {
        let a = trace[k + 1];
        assert(b.spec_current() is Some && b.advances_to(a));
        lemma_drain_step(b, a);
        lemma_drain_from(trace, k + 1);
        lemma_yielded_cons(trace, k);
    }
}

/// Draining a plan from its start (calling `current` and `advance` until
/// `current` is `None`) yields every rep of the plan exactly once and in
/// order: the yielded reps are the plan's upcoming reps from `(0, 0)`, as
/// many as the sum over the steps of their rep counts, in strictly
/// increasing (step, rep) order, each the plan's rep at its own position;
/// and the finished runner stays finished when advanced.
pub proof fn lemma_drain<C, R: Copy>(trace: Seq<PlanRunner<C, R>>)
    requires
        is_drain(trace),
        trace[0].position() == (0int, 0int),
    ensures
        ({
            let steps = trace[0].steps();
            let ys = yielded_from(trace, 0);
            &&& ys == upcoming(steps, 0, 0)
            &&& ys.len() == reps_left(steps, 0, 0)
            &&& forall|i: int| 0 <= i < ys.len() ==> {
                let x = #[trigger] ys[i];
                &&& x.step_idx < steps.len()
                &&& x.rep_idx < step_total(steps[x.step_idx as int])
                &&& x == rep_at(steps[x.step_idx as int], x.step_idx as int, x.rep_idx as int)
            }
            &&& forall|i: int, j: int| 0 <= i < j < ys.len() ==> comes_before(#[trigger] ys[i], #[trigger] ys[j])
            &&& forall|after: PlanRunner<C, R>| trace.last().advances_to(after)
                ==> after.position() == trace.last().position() && after.spec_current() is None
        }),
{
    let steps = trace[0].steps();
    assert forall|k: int| 0 <= k < trace.len() implies (#[trigger] trace[k]).wf() && trace[k].steps() == steps by {
        lemma_drain_steps_kept(trace, k);
    }
    lemma_drain_from(trace, 0);
    assert(steps.len() <= usize::MAX) by {
        assert(trace[0].plan.steps.len() == trace[0].plan.steps@.len());
    }
    lemma_upcoming_shape(steps, 0, 0);
}

proof fn lemma_drain_steps_kept<C, R: Copy>(trace: Seq<PlanRunner<C, R>>, k: int)
    requires
        is_drain(trace),
        0 <= k < trace.len(),
    ensures
        trace[k].wf(),
        trace[k].steps() == trace[0].steps(),
    decreases k,
{
    if k > 0 {
        lemma_drain_steps_kept(trace, k - 1);
        assert(trace[k - 1].advances_to(trace[k - 1 + 1]));
    }
}

/// How a rotation visits its loops: with `per = max(reps_per_visit, 1)`,
/// each visit plays one loop `per` times in a row, and visit `v` plays
/// `loop_ids[v % loop_ids.len()]`, so the loops come round in list order.
/// Rep `r` is in visit `r / per`; two reps in the same visit play the same
/// loop, and a rep that is not the first of its visit plays the loop of the
/// rep before it.
pub proof fn lemma_rotation_visits<C, R>(step: PlanStep<C, R>, s: int, r: int)
    requires
        step is Rotation,
        step->loop_ids@.len() > 0,
        r >= 0,
    ensures
        ({
            let ids = step->loop_ids@;
            let per: int = if step->reps_per_visit > 0 { step->reps_per_visit as int } else { 1 };
            &&& rep_at(step, s, r).loop_id == ids[(r / per) % (ids.len() as int)]
            &&& forall|q: int| q >= 0 && #[trigger] (q / per) == r / per
                ==> rep_at(step, s, q).loop_id == rep_at(step, s, r).loop_id
            &&& (r + 1) % per != 0 ==> rep_at(step, s, r + 1).loop_id == rep_at(step, s, r).loop_id
            &&& (r + 1) % per == 0 ==> rep_at(step, s, r + 1).loop_id == ids[((r / per) + 1) % (ids.len() as int)]
            &&& rep_at(step, s, r).pace == Pace::<R>::Curve(((r / per) / (ids.len() as int)) as u32)
            &&& rep_at(step, s, r).mode == RepMode::Play
        }),
{
    let per: int = if step->reps_per_visit > 0 { step->reps_per_visit as int } else { 1 };
    assert(per > 0);
    assert((r + 1) % per != 0 ==> (r + 1) / per == r / per) by (nonlinear_arith)
        requires per > 0, r >= 0;
    assert((r + 1) % per == 0 ==> (r + 1) / per == r / per + 1) by (nonlinear_arith)
        requires per > 0, r >= 0;
}

/// What each other kind of step plays at rep `r`: a listen-first step plays
/// its loop at the original tempo for listening; a play-reps step plays its
/// loop at curve point `r`; a recall test plays its loop at its fixed rate,
/// with the music on even reps and silent (from memory) on odd ones.
pub proof fn lemma_rep_kinds<C, R>(step: PlanStep<C, R>, s: int, r: int)
    requires
        0 <= r <= u32::MAX,
        0 <= s <= usize::MAX,
    ensures
        rep_at(step, s, r).step_idx == s,
        rep_at(step, s, r).rep_idx == r,
        step matches PlanStep::ListenFirst { loop_id, .. } ==> rep_at(step, s, r).loop_id == loop_id
            && rep_at(step, s, r).pace == Pace::<R>::Original && rep_at(step, s, r).mode == RepMode::Listen,
        step matches PlanStep::PlayReps { loop_id, .. } ==> rep_at(step, s, r).loop_id == loop_id
            && rep_at(step, s, r).pace == Pace::<R>::Curve(r as u32) && rep_at(step, s, r).mode == RepMode::Play,
        step matches PlanStep::RecallTest { loop_id, rate, .. } ==> rep_at(step, s, r).loop_id == loop_id
            && rep_at(step, s, r).pace == Pace::Fixed(rate)
            && (rep_at(step, s, r).mode == RepMode::Play <==> r % 2 == 0)
            && (rep_at(step, s, r).mode == RepMode::RecallSilent <==> r % 2 == 1),
{
}

} // verus!
