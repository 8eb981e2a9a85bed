use earworm::engine_state::EngineCmd;
use earworm::pipeline::Transport;

type Cmd = EngineCmd<f64, f32>;

#[test]
fn new_transport_is_paused_and_silent() {
    let t = Transport::new();
    assert_eq!(t, Transport { playing: false, muted: false, gain_up: false });
    assert!(t.idle(true));
    assert!(!t.idle(false));
}

#[test]
fn play_ramps_up_unless_muted() {
    let mut t = Transport::new();
    t.apply(&Cmd::Play);
    assert!(t.playing && t.gain_up);
    let mut m = Transport::new();
    m.apply(&Cmd::Mute(true));
    m.apply(&Cmd::Play);
    assert!(m.playing && !m.gain_up);
}

#[test]
fn pause_stops_once_the_ramp_reaches_zero() {
    let mut t = Transport::new();
    t.apply(&Cmd::Play);
    t.apply(&Cmd::Pause);
    assert!(t.playing && !t.gain_up);
    t.settle(false);
    assert!(t.playing, "still ramping down");
    t.settle(true);
    assert!(!t.playing);
}

#[test]
fn mute_keeps_position_moving_but_output_silent() {
    let mut t = Transport::new();
    t.apply(&Cmd::Play);
    t.apply(&Cmd::Mute(true));
    assert!(!t.gain_up);
    t.settle(true);
    assert!(t.playing, "muted playback keeps going");
    t.apply(&Cmd::Mute(false));
    assert!(t.gain_up);
}

#[test]
fn finishing_stops_and_ramps_down() {
    let mut t = Transport::new();
    t.apply(&Cmd::Play);
    t.finish();
    assert!(!t.playing && !t.gain_up);
}

#[test]
fn other_commands_leave_the_transport_alone() {
    let mut t = Transport::new();
    t.apply(&Cmd::Play);
    let before = t;
    t.apply(&Cmd::SeekSecs(3.0));
    t.apply(&Cmd::SetRate(0.5));
    t.apply(&Cmd::SetVolume(0.7));
    t.apply(&Cmd::BassFocus(true));
    assert_eq!(t, before);
}
