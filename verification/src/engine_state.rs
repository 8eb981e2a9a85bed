//! Live engine state snapshot for output-device handoff.
//!
//! The engine observes every command it sends (and every position report it
//! receives) into an `EngineState`. When the output thread is respawned on a
//! new device the fresh pipeline starts from defaults; replaying
//! `replay_cmds()` into it restores playback to where it was.
//!
//! `S` is the type of time and rate values, `G` the type of gain values; the
//! state only stores and replays them.
use vstd::prelude::*;
use std::collections::BTreeMap;
use crate::stem_gains::{gains_map, lemma_sorted_gains, ordered_entries, set_gain, sorted_gains};

verus! {

/// Commands that change what a pipeline plays.
#[derive(Debug, Clone, Copy, PartialEq)]
pub enum EngineCmd<S, G> {
    Play,
    Pause,
    SeekSecs(S),
    SetLoopSecs { start: S, end: S },
    ClearLoop,
    SetRate(S),
    /// Semitones and cents combined into one frequency scale factor.
    SetPitchScale(S),
    BassFocus(bool),
    /// Audio muted while the position keeps advancing.
    Mute(bool),
    /// Per-stem mix gain.
    SetStemGain { idx: usize, gain: G },
    /// User playback volume.
    SetVolume(G),
}

/// What an `EngineState` records, as mathematical values.
pub struct EngineView<S, G> {
    pub loop_region: Option<(S, S)>,
    pub rate: Option<S>,
    pub pitch_scale: Option<S>,
    pub bass_focus: bool,
    pub muted: bool,
    pub stem_gains: Map<usize, G>,
    pub volume: Option<G>,
    pub playing: bool,
    pub pos_secs: S,
}

pub struct EngineState<S, G> {
    pub loop_region: Option<(S, S)>,
    pub rate: Option<S>,
    pub pitch_scale: Option<S>,
    pub bass_focus: bool,
    pub muted: bool,
    /// Observed stem gains, by stem index.
    pub stem_gains: BTreeMap<usize, G>,
    pub volume: Option<G>,
    pub playing: bool,
    pub pos_secs: S,
}

/// The state after observing `cmd`.
pub open spec fn observe_spec<S, G>(v: EngineView<S, G>, cmd: EngineCmd<S, G>) -> EngineView<S, G> {
    match cmd {
        EngineCmd::Play => EngineView { playing: true, ..v },
        EngineCmd::Pause => EngineView { playing: false, ..v },
        EngineCmd::SeekSecs(s) => EngineView { pos_secs: s, ..v },
        EngineCmd::SetLoopSecs { start, end } => EngineView { loop_region: Some((start, end)), ..v },
        EngineCmd::ClearLoop => EngineView { loop_region: None, ..v },
        EngineCmd::SetRate(r) => EngineView { rate: Some(r), ..v },
        EngineCmd::SetPitchScale(p) => EngineView { pitch_scale: Some(p), ..v },
        EngineCmd::BassFocus(b) => EngineView { bass_focus: b, ..v },
        EngineCmd::Mute(m) => EngineView { muted: m, ..v },
        EngineCmd::SetStemGain { idx, gain } => EngineView { stem_gains: v.stem_gains.insert(idx, gain), ..v },
        EngineCmd::SetVolume(g) => EngineView { volume: Some(g), ..v },
    }
}

/// The state after observing `cmds` in order.
pub open spec fn observe_all<S, G>(v: EngineView<S, G>, cmds: Seq<EngineCmd<S, G>>) -> EngineView<S, G>
    decreases cmds.len(),
{
    if cmds.len() == 0 {
        v
    } else {
        observe_all(observe_spec(v, cmds[0]), cmds.drop_first())
    }
}

/// A state as a freshly started pipeline has it (any playhead position).
pub open spec fn is_fresh<S, G>(v: EngineView<S, G>) -> bool {
    &&& v.loop_region is None
    &&& v.rate is None
    &&& v.pitch_scale is None
    &&& !v.bass_focus
    &&& !v.muted
    &&& v.stem_gains == Map::<usize, G>::empty()
    &&& v.volume is None
    &&& !v.playing
}

pub open spec fn opt_cmd<S, G, T>(o: Option<T>, f: spec_fn(T) -> EngineCmd<S, G>) -> Seq<EngineCmd<S, G>> {
    match o {
        Some(x) => seq![f(x)],
        None => Seq::empty(),
    }
}

/// The replay sequence for a state whose stem gains are listed in `gains`:
/// volume, rate and pitch when observed; bass focus and mute always; each
/// stem gain in index order; the loop when set; a seek to the playhead; and a
/// trailing `Play` only when playing.
pub open spec fn replay_spec<S, G>(
    loop_region: Option<(S, S)>,
    rate: Option<S>,
    pitch_scale: Option<S>,
    bass_focus: bool,
    muted: bool,
    gains: Seq<(usize, G)>,
    volume: Option<G>,
    playing: bool,
    pos_secs: S,
) -> Seq<EngineCmd<S, G>> {
    opt_cmd(volume, |g: G| EngineCmd::<S, G>::SetVolume(g))
        + opt_cmd(rate, |r: S| EngineCmd::<S, G>::SetRate(r))
        + opt_cmd(pitch_scale, |p: S| EngineCmd::<S, G>::SetPitchScale(p))
        + seq![EngineCmd::<S, G>::BassFocus(bass_focus), EngineCmd::<S, G>::Mute(muted)]
        + gains.map_values(|e: (usize, G)| EngineCmd::<S, G>::SetStemGain { idx: e.0, gain: e.1 })
        + opt_cmd(loop_region, |l: (S, S)| EngineCmd::<S, G>::SetLoopSecs { start: l.0, end: l.1 })
        + seq![EngineCmd::<S, G>::SeekSecs(pos_secs)]
        + (if playing { seq![EngineCmd::<S, G>::Play] } else { Seq::empty() })
}

impl<S: Copy, G: Copy> EngineState<S, G> {
    /// The observed stem gains, in index order.
    pub open spec fn gains_list(self) -> Seq<(usize, G)> {
        sorted_gains(self.stem_gains@)
    }

    pub open spec fn view(self) -> EngineView<S, G> {
        EngineView {
            loop_region: self.loop_region,
            rate: self.rate,
            pitch_scale: self.pitch_scale,
            bass_focus: self.bass_focus,
            muted: self.muted,
            stem_gains: self.stem_gains@,
            volume: self.volume,
            playing: self.playing,
            pos_secs: self.pos_secs,
        }
    }

    /// A fresh state with the playhead at `pos_secs`.
    pub fn new(pos_secs: S) -> (r: Self)
        ensures
            is_fresh(r.view()),
            r.pos_secs == pos_secs,
    {
        let r = EngineState {
            loop_region: None,
            rate: None,
            pitch_scale: None,
            bass_focus: false,
            muted: false,
            stem_gains: BTreeMap::new(),
            volume: None,
            playing: false,
            pos_secs,
        };
        r
    }

    /// Fold a command into the snapshot, tracking what a fresh pipeline would
    /// need to reproduce the current playback.
    pub fn observe(&mut self, cmd: &EngineCmd<S, G>)
        ensures
            final(self).view() == observe_spec(old(self).view(), *cmd),
    {
        match cmd {
            EngineCmd::Play => self.playing = true,
            EngineCmd::Pause => self.playing = false,
            EngineCmd::SeekSecs(s) => self.pos_secs = *s,
            EngineCmd::SetLoopSecs { start, end } => self.loop_region = Some((*start, *end)),
            EngineCmd::ClearLoop => self.loop_region = None,
            EngineCmd::SetRate(r) => self.rate = Some(*r),
            EngineCmd::SetPitchScale(p) => self.pitch_scale = Some(*p),
            EngineCmd::BassFocus(b) => self.bass_focus = *b,
            EngineCmd::Mute(m) => self.muted = *m,
            EngineCmd::SetStemGain { idx, gain } => {
                set_gain(&mut self.stem_gains, *idx, *gain);
            }
            EngineCmd::SetVolume(v) => self.volume = Some(*v),
        }
    }

    /// Update playhead and play state from a position report coming back from
    /// the render thread.
    pub fn set_position(&mut self, secs: S, playing: bool)
        ensures
            final(self).pos_secs == secs,
            final(self).playing == playing,
            final(self).loop_region == old(self).loop_region,
            final(self).rate == old(self).rate,
            final(self).pitch_scale == old(self).pitch_scale,
            final(self).bass_focus == old(self).bass_focus,
            final(self).muted == old(self).muted,
            final(self).gains_list() == old(self).gains_list(),
            final(self).volume == old(self).volume,
    {
        self.pos_secs = secs;
        self.playing = playing;
    }

    /// The commands that rebuild this state on a fresh pipeline, in the order
    /// the new ring should receive them.
    #[verifier::spinoff_prover]
    #[verifier::rlimit(60)]
    pub fn replay_cmds(&self) -> (cmds: Vec<EngineCmd<S, G>>)
        ensures
            cmds@ == replay_spec(self.loop_region, self.rate, self.pitch_scale, self.bass_focus,
                self.muted, self.gains_list(), self.volume, self.playing, self.pos_secs),
    {
        let ghost fa = opt_cmd(self.volume, |g: G| EngineCmd::<S, G>::SetVolume(g));
        let ghost fb = opt_cmd(self.rate, |r: S| EngineCmd::<S, G>::SetRate(r));
        let ghost fc = opt_cmd(self.pitch_scale, |p: S| EngineCmd::<S, G>::SetPitchScale(p));
        let ghost ft = seq![EngineCmd::<S, G>::BassFocus(self.bass_focus), EngineCmd::<S, G>::Mute(self.muted)];
        let ghost fg = self.gains_list().map_values(|e: (usize, G)| EngineCmd::<S, G>::SetStemGain { idx: e.0, gain: e.1 });
        let ghost fd = opt_cmd(self.loop_region, |l: (S, S)| EngineCmd::<S, G>::SetLoopSecs { start: l.0, end: l.1 });
        let ghost fe = seq![EngineCmd::<S, G>::SeekSecs(self.pos_secs)];
        let ghost fp: Seq<EngineCmd<S, G>> = if self.playing { seq![EngineCmd::<S, G>::Play] } else { Seq::empty() };
        let mut cmds: Vec<EngineCmd<S, G>> = Vec::new();
        if let Some(v) = self.volume {
            cmds.push(EngineCmd::SetVolume(v));
        }
        assert(cmds@ =~= fa);
        let ghost s1 = cmds@;
        if let Some(r) = self.rate {
            cmds.push(EngineCmd::SetRate(r));
        }
        assert(cmds@ =~= s1 + fb);
        let ghost s2 = cmds@;
        if let Some(p) = self.pitch_scale {
            cmds.push(EngineCmd::SetPitchScale(p));
        }
        assert(cmds@ =~= s2 + fc);
        let ghost s3 = cmds@;
        cmds.push(EngineCmd::BassFocus(self.bass_focus));
        cmds.push(EngineCmd::Mute(self.muted));
        assert(cmds@ =~= s3 + ft);
        let ghost head = cmds@;
        let gains = ordered_entries(&self.stem_gains);
        push_gain_cmds(&mut cmds, &gains);
        assert(cmds@ == head + fg);
        let ghost s5 = cmds@;
        if let Some((start, end)) = self.loop_region {
            cmds.push(EngineCmd::SetLoopSecs { start, end });
        }
        assert(cmds@ =~= s5 + fd);
        let ghost s6 = cmds@;
        cmds.push(EngineCmd::SeekSecs(self.pos_secs));
        assert(cmds@ =~= s6 + fe);
        let ghost s7 = cmds@;
        if self.playing {
            cmds.push(EngineCmd::Play);
        }
        assert(cmds@ =~= s7 + fp);
        cmds
    }
}

impl<S: Copy + Default, G: Copy> Default for EngineState<S, G> {
    /// A fresh state with the playhead at the time type's default (zero).
    fn default() -> (r: Self)
        ensures
            is_fresh(r.view()),
    {
        EngineState::new(S::default())
    }
}

/// Appends one `SetStemGain` per listed gain, in order.
fn push_gain_cmds<S: Copy, G: Copy>(cmds: &mut Vec<EngineCmd<S, G>>, gains: &Vec<(usize, G)>)
    ensures
        final(cmds)@ == old(cmds)@ + gains@.map_values(|e: (usize, G)| EngineCmd::<S, G>::SetStemGain { idx: e.0, gain: e.1 }),
{
    let ghost head = cmds@;
    let mut i: usize = 0;
    while i < gains.len()
        invariant
            i <= gains@.len(),
            cmds@ == head + gains@.take(i as int).map_values(
                |e: (usize, G)| EngineCmd::<S, G>::SetStemGain { idx: e.0, gain: e.1 }),
        decreases gains.len() - i,
    {
        let (idx, gain) = gains[i];
        cmds.push(EngineCmd::SetStemGain { idx, gain });
        proof {
            assert(gains@.take(i + 1) == gains@.take(i as int).push(gains@[i as int]));
            assert(gains@.take(i + 1).map_values(|e: (usize, G)| EngineCmd::<S, G>::SetStemGain { idx: e.0, gain: e.1 })
                == gains@.take(i as int).map_values(|e: (usize, G)| EngineCmd::<S, G>::SetStemGain { idx: e.0, gain: e.1 })
                    .push(EngineCmd::SetStemGain { idx, gain }));
        }
        i = i + 1;
    }
    proof {
        assert(gains@.take(gains@.len() as int) == gains@);
    }
}

/// Observing `a` and then `b` is observing `a + b`.
pub proof fn lemma_observe_all_append<S, G>(v: EngineView<S, G>, a: Seq<EngineCmd<S, G>>, b: Seq<EngineCmd<S, G>>)
    ensures
        observe_all(v, a + b) == observe_all(observe_all(v, a), b),
    decreases a.len(),
{
    if a.len() > 0 {
        assert((a + b).drop_first() == a.drop_first() + b);
        lemma_observe_all_append(observe_spec(v, a[0]), a.drop_first(), b);
    } else {
        assert(a + b == b);
    }
}

/// Observing a list of one command is observing that command.
pub proof fn lemma_observe_one<S, G>(v: EngineView<S, G>, c: EngineCmd<S, G>)
    ensures
        observe_all(v, seq![c]) == observe_spec(v, c),
{
    assert(seq![c].drop_first() =~= Seq::<EngineCmd<S, G>>::empty());
    assert(observe_all(observe_spec(v, c), Seq::<EngineCmd<S, G>>::empty()) == observe_spec(v, c));
}

/// Observing each listed gain in order on top of `v` sets exactly the map the
/// list builds over `v`'s gains.
proof fn lemma_observe_gains<S, G>(v: EngineView<S, G>, gains: Seq<(usize, G)>)
    ensures
        observe_all(v, gains.map_values(|e: (usize, G)| EngineCmd::<S, G>::SetStemGain { idx: e.0, gain: e.1 }))
            == (EngineView { stem_gains: v.stem_gains.union_prefer_right(gains_map(gains)), ..v }),
    decreases gains.len(),
{
    let f = |e: (usize, G)| EngineCmd::<S, G>::SetStemGain { idx: e.0, gain: e.1 };
    if gains.len() == 0 {
        assert(v.stem_gains.union_prefer_right(gains_map(gains)) =~= v.stem_gains);
    } else {
        let init = gains.drop_last();
        let last = gains.last();
        lemma_observe_gains(v, init);
        assert(gains.map_values(f) == init.map_values(f) + seq![f(last)]);
        lemma_observe_all_append(v, init.map_values(f), seq![f(last)]);
        let mid = observe_all(v, init.map_values(f));
        lemma_observe_one(mid, f(last));
        assert(v.stem_gains.union_prefer_right(gains_map(init)).insert(last.0, last.1)
            =~= v.stem_gains.union_prefer_right(gains_map(gains)));
    }
}

/// Replaying a state's commands onto a freshly started pipeline rebuilds that
/// exact state: loop, rate, pitch, bass focus, mute, every stem gain, volume,
/// playhead and play state.
#[verifier::spinoff_prover]
pub proof fn lemma_replay_restores_state<S: Copy, G: Copy>(st: EngineState<S, G>, fresh: EngineView<S, G>)
    requires
        is_fresh(fresh),
    ensures
        observe_all(fresh, replay_spec(st.loop_region, st.rate, st.pitch_scale, st.bass_focus,
            st.muted, st.gains_list(), st.volume, st.playing, st.pos_secs)) == st.view(),
{
    let a = opt_cmd(st.volume, |g: G| EngineCmd::<S, G>::SetVolume(g));
    let b = opt_cmd(st.rate, |r: S| EngineCmd::<S, G>::SetRate(r));
    let c = opt_cmd(st.pitch_scale, |p: S| EngineCmd::<S, G>::SetPitchScale(p));
    let t = seq![EngineCmd::<S, G>::BassFocus(st.bass_focus), EngineCmd::<S, G>::Mute(st.muted)];
    let g = st.gains_list().map_values(|e: (usize, G)| EngineCmd::<S, G>::SetStemGain { idx: e.0, gain: e.1 });
    let d = opt_cmd(st.loop_region, |l: (S, S)| EngineCmd::<S, G>::SetLoopSecs { start: l.0, end: l.1 });
    let e = seq![EngineCmd::<S, G>::SeekSecs(st.pos_secs)];
    let p: Seq<EngineCmd<S, G>> = if st.playing { seq![EngineCmd::<S, G>::Play] } else { Seq::empty() };
    let q1 = a;
    let q2 = q1 + b;
    let q3 = q2 + c;
    let q4 = q3 + t;
    let q5 = q4 + g;
    let q6 = q5 + d;
    let q7 = q6 + e;
    let v1 = observe_all(fresh, q1);
    lemma_observe_opt(fresh, st.volume, |g: G| EngineCmd::<S, G>::SetVolume(g));
    lemma_observe_all_append(fresh, q1, b);
    lemma_observe_opt(v1, st.rate, |r: S| EngineCmd::<S, G>::SetRate(r));
    let v2 = observe_all(fresh, q2);
    lemma_observe_all_append(fresh, q2, c);
    lemma_observe_opt(v2, st.pitch_scale, |p: S| EngineCmd::<S, G>::SetPitchScale(p));
    let v3 = observe_all(fresh, q3);
    lemma_observe_all_append(fresh, q3, t);
    lemma_observe_two(v3, t[0], t[1]);
    assert(t == seq![t[0], t[1]]);
    let v4 = observe_all(fresh, q4);
    lemma_observe_all_append(fresh, q4, g);
    lemma_observe_gains(v4, st.gains_list());
    lemma_sorted_gains(st.stem_gains@);
    assert(Map::<usize, G>::empty().union_prefer_right(gains_map(st.gains_list())) =~= gains_map(st.gains_list()));
    let v5 = observe_all(fresh, q5);
    lemma_observe_all_append(fresh, q5, d);
    lemma_observe_opt(v5, st.loop_region, |l: (S, S)| EngineCmd::<S, G>::SetLoopSecs { start: l.0, end: l.1 });
    let v6 = observe_all(fresh, q6);
    lemma_observe_all_append(fresh, q6, e);
    lemma_observe_one(v6, e[0]);
    let v7 = observe_all(fresh, q7);
    lemma_observe_all_append(fresh, q7, p);
    if st.playing {
        lemma_observe_one(v7, p[0]);
    } else {
        assert(observe_all(v7, p) == v7);
    }
    assert(observe_all(v7, p) == st.view());
}

proof fn lemma_observe_opt<S, G, T>(v: EngineView<S, G>, o: Option<T>, f: spec_fn(T) -> EngineCmd<S, G>)
    ensures
        observe_all(v, opt_cmd(o, f)) == match o {
            Some(x) => observe_spec(v, f(x)),
            None => v,
        },
{
    match o {
        Some(x) => lemma_observe_one(v, f(x)),
        None => {}
    }
}

proof fn lemma_observe_two<S, G>(v: EngineView<S, G>, c1: EngineCmd<S, G>, c2: EngineCmd<S, G>)
    ensures
        observe_all(v, seq![c1, c2]) == observe_spec(observe_spec(v, c1), c2),
{
    assert(seq![c1, c2].drop_first() =~= seq![c2]);
    lemma_observe_one(observe_spec(v, c1), c2);
}

/// Replay is stable: a state rebuilt by replaying another state's commands
/// onto a fresh pipeline holds the same loop, rate, pitch, bass focus, mute,
/// stem gains (in the same order), volume, playhead and play state, so its
/// own replay is the very same command list; that list ends in `Play`
/// exactly when the state is playing.
pub proof fn lemma_replay_is_stable<S: Copy, G: Copy>(st: EngineState<S, G>, t: EngineState<S, G>, fresh: EngineView<S, G>)
    requires
        is_fresh(fresh),
        t.view() == observe_all(fresh, replay_spec(st.loop_region, st.rate, st.pitch_scale, st.bass_focus,
            st.muted, st.gains_list(), st.volume, st.playing, st.pos_secs)),
    ensures
        t.loop_region == st.loop_region,
        t.rate == st.rate,
        t.pitch_scale == st.pitch_scale,
        t.bass_focus == st.bass_focus,
        t.muted == st.muted,
        t.gains_list() == st.gains_list(),
        t.volume == st.volume,
        t.playing == st.playing,
        t.pos_secs == st.pos_secs,
        replay_spec(t.loop_region, t.rate, t.pitch_scale, t.bass_focus, t.muted, t.gains_list(), t.volume,
            t.playing, t.pos_secs) == replay_spec(st.loop_region, st.rate, st.pitch_scale, st.bass_focus,
            st.muted, st.gains_list(), st.volume, st.playing, st.pos_secs),
        ({
            let cmds = replay_spec(st.loop_region, st.rate, st.pitch_scale, st.bass_focus, st.muted,
                st.gains_list(), st.volume, st.playing, st.pos_secs);
            cmds.last() == EngineCmd::<S, G>::Play <==> st.playing
        }),
{
    lemma_replay_restores_state(st, fresh);
    assert(t.view() == st.view());
    assert(t.stem_gains@ == st.stem_gains@);
    let cmds = replay_spec(st.loop_region, st.rate, st.pitch_scale, st.bass_focus, st.muted,
        st.gains_list(), st.volume, st.playing, st.pos_secs);
    let pre = opt_cmd(st.volume, |g: G| EngineCmd::<S, G>::SetVolume(g))
        + opt_cmd(st.rate, |r: S| EngineCmd::<S, G>::SetRate(r))
        + opt_cmd(st.pitch_scale, |p: S| EngineCmd::<S, G>::SetPitchScale(p))
        + seq![EngineCmd::<S, G>::BassFocus(st.bass_focus), EngineCmd::<S, G>::Mute(st.muted)]
        + st.gains_list().map_values(|e: (usize, G)| EngineCmd::<S, G>::SetStemGain { idx: e.0, gain: e.1 })
        + opt_cmd(st.loop_region, |l: (S, S)| EngineCmd::<S, G>::SetLoopSecs { start: l.0, end: l.1 })
        + seq![EngineCmd::<S, G>::SeekSecs(st.pos_secs)];
    if st.playing {
        assert(cmds == pre + seq![EngineCmd::<S, G>::Play]);
        assert(cmds.last() == EngineCmd::<S, G>::Play);
    } else {
        assert(cmds == pre + Seq::<EngineCmd<S, G>>::empty());
        assert(cmds =~= pre);
        assert(cmds.last() == EngineCmd::<S, G>::SeekSecs(st.pos_secs));
    }
}

} // verus!
