use earworm::engine_state::EngineState;
use earworm::render_core::VolumeLatch;

type EngineCmd = earworm::engine_state::EngineCmd<f64, f32>;
type State = EngineState<f64, f32>;

#[test]
fn observe_sequence_builds_expected_snapshot() {
    let mut s = State::default();
    s.observe(&EngineCmd::SetVolume(0.8));
    s.observe(&EngineCmd::SetRate(0.5));
    s.observe(&EngineCmd::Play);
    s.observe(&EngineCmd::SetLoopSecs { start: 1.0, end: 2.0 });
    s.observe(&EngineCmd::SeekSecs(1.25));

    assert_eq!(s.volume, Some(0.8));
    assert_eq!(s.rate, Some(0.5));
    assert!(s.playing);
    assert_eq!(s.loop_region, Some((1.0, 2.0)));
    assert_eq!(s.pos_secs, 1.25);
    assert_eq!(s.pitch_scale, None);
    assert!(!s.bass_focus);
    assert!(!s.muted);
    assert!(s.stem_gains.is_empty());
}

#[test]
fn replay_emits_expected_ordered_cmds_with_trailing_play() {
    let mut s = State::default();
    s.observe(&EngineCmd::SetVolume(0.8));
    s.observe(&EngineCmd::SetRate(0.5));
    s.observe(&EngineCmd::SetPitchScale(1.2));
    s.observe(&EngineCmd::BassFocus(true));
    s.observe(&EngineCmd::SetStemGain { idx: 1, gain: 0.0 });
    s.observe(&EngineCmd::SetLoopSecs { start: 1.0, end: 2.0 });
    s.observe(&EngineCmd::SeekSecs(1.25));
    s.observe(&EngineCmd::Play);

    assert_eq!(
        s.replay_cmds(),
        vec![
            EngineCmd::SetVolume(0.8),
            EngineCmd::SetRate(0.5),
            EngineCmd::SetPitchScale(1.2),
            EngineCmd::BassFocus(true),
            EngineCmd::Mute(false),
            EngineCmd::SetStemGain { idx: 1, gain: 0.0 },
            EngineCmd::SetLoopSecs { start: 1.0, end: 2.0 },
            EngineCmd::SeekSecs(1.25),
            EngineCmd::Play,
        ]
    );
}

#[test]
fn paused_snapshot_omits_trailing_play() {
    let mut s = State::default();
    s.observe(&EngineCmd::Play);
    s.observe(&EngineCmd::SeekSecs(3.0));
    s.observe(&EngineCmd::Pause);

    let cmds = s.replay_cmds();
    assert!(!cmds.contains(&EngineCmd::Play));
    assert_eq!(
        cmds,
        vec![EngineCmd::BassFocus(false), EngineCmd::Mute(false), EngineCmd::SeekSecs(3.0)]
    );
}

#[test]
fn clear_loop_leaves_no_loop_in_replay() {
    let mut s = State::default();
    s.observe(&EngineCmd::SetLoopSecs { start: 1.0, end: 2.0 });
    s.observe(&EngineCmd::ClearLoop);

    assert_eq!(s.loop_region, None);
    let cmds = s.replay_cmds();
    assert!(
        !cmds.iter().any(|c| matches!(c, EngineCmd::SetLoopSecs { .. })),
        "no loop cmd should be replayed after ClearLoop: {cmds:?}"
    );
}

#[test]
fn stem_gains_replay_in_index_order_one_per_stem() {
    let mut s = State::default();
    s.observe(&EngineCmd::SetStemGain { idx: 3, gain: 0.5 });
    s.observe(&EngineCmd::SetStemGain { idx: 0, gain: 1.0 });
    s.observe(&EngineCmd::SetStemGain { idx: 3, gain: 0.25 });
    let listed: Vec<(usize, f32)> = s.stem_gains.iter().map(|(i, g)| (*i, *g)).collect();
    assert_eq!(listed, vec![(0, 1.0), (3, 0.25)]);
    assert_eq!(
        s.replay_cmds(),
        vec![
            EngineCmd::BassFocus(false),
            EngineCmd::Mute(false),
            EngineCmd::SetStemGain { idx: 0, gain: 1.0 },
            EngineCmd::SetStemGain { idx: 3, gain: 0.25 },
            EngineCmd::SeekSecs(0.0),
        ]
    );
}

#[test]
fn replaying_onto_a_fresh_state_rebuilds_it() {
    let mut s = State::default();
    for c in [
        EngineCmd::SetVolume(0.7),
        EngineCmd::SetStemGain { idx: 2, gain: 0.1 },
        EngineCmd::Mute(true),
        EngineCmd::SetStemGain { idx: 0, gain: 0.9 },
        EngineCmd::SetPitchScale(0.9),
        EngineCmd::SetLoopSecs { start: 3.0, end: 4.5 },
        EngineCmd::SeekSecs(3.5),
        EngineCmd::Play,
    ] {
        s.observe(&c);
    }
    let mut fresh = State::new(12.0);
    for c in s.replay_cmds() {
        fresh.observe(&c);
    }
    assert_eq!(fresh.loop_region, s.loop_region);
    assert_eq!(fresh.rate, s.rate);
    assert_eq!(fresh.pitch_scale, s.pitch_scale);
    assert_eq!(fresh.bass_focus, s.bass_focus);
    assert_eq!(fresh.muted, s.muted);
    assert_eq!(fresh.stem_gains, s.stem_gains);
    assert_eq!(fresh.volume, s.volume);
    assert_eq!(fresh.playing, s.playing);
    assert_eq!(fresh.pos_secs, s.pos_secs);
}

#[test]
fn position_reports_update_playhead_and_play_state() {
    let mut s = State::default();
    s.observe(&EngineCmd::Play);
    s.set_position(7.5, false);
    assert_eq!(s.pos_secs, 7.5);
    assert!(!s.playing);
}

#[test]
fn latched_volume_seeds_the_pipeline_of_a_new_song() {
    let mut latch: VolumeLatch<f32> = VolumeLatch::new(1.0);
    latch.observe(&EngineCmd::SetVolume(0.4));
    latch.observe(&EngineCmd::Play);
    latch.observe(&EngineCmd::SetStemGain { idx: 0, gain: 0.2 });
    assert_eq!(latch.volume, 0.4);
    let seed: EngineCmd = latch.seed();
    assert_eq!(seed, EngineCmd::SetVolume(0.4));
    let mut swapped = State::new(0.0);
    swapped.observe(&seed);
    swapped.observe(&EngineCmd::Play);
    assert_eq!(swapped.volume, Some(0.4));
    latch.observe(&EngineCmd::SetVolume(1.25));
    assert_eq!(latch.volume, 1.25);
}
