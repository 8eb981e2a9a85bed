//! The play / pause / mute decisions of a render pipeline. The pipeline ramps
//! its output gain toward a target (full or silent) a little every frame; this
//! state says whether it is playing, whether it is muted, and which way the
//! gain is heading, and decides when a finished ramp-down stops playback.
//! A muted pipeline keeps playing silently, so its position keeps advancing.
use vstd::prelude::*;
use crate::engine_state::EngineCmd;

verus! {

#[derive(Debug, Clone, Copy, PartialEq, Eq, Structural)]
pub struct Transport {
    /// The song position advances.
    pub playing: bool,
    /// Output is silenced while the position keeps advancing.
    pub muted: bool,
    /// The gain ramps toward full (`true`) or toward silence (`false`).
    pub gain_up: bool,
}

/// The transport after command `cmd`.
pub open spec fn apply_spec<S, G>(t: Transport, cmd: EngineCmd<S, G>) -> Transport {
    match cmd {
        EngineCmd::Play => Transport { playing: true, gain_up: if t.muted { t.gain_up } else { true }, ..t },
        EngineCmd::Pause => Transport { gain_up: false, ..t },
        EngineCmd::Mute(on) => Transport { muted: on, gain_up: !on && t.playing, ..t },
        _ => t,
    }
}

/// The transport after a rendered block whose gain ended at zero or not.
pub open spec fn settle_spec(t: Transport, gain_is_zero: bool) -> Transport {
    if !t.gain_up && gain_is_zero && !t.muted {
        Transport { playing: false, ..t }
    } else {
        t
    }
}

impl Transport {
    /// A new pipeline: paused, unmuted, silent.
    pub fn new() -> (t: Transport)
        ensures
            !t.playing && !t.muted && !t.gain_up,
    {
        Transport { playing: false, muted: false, gain_up: false }
    }

    /// Take in a command: `Play` starts playback and ramps up unless muted,
    /// `Pause` ramps down (playback stops once silent), `Mute` silences or
    /// restores the output without touching playback. Other commands leave
    /// the transport alone.
    pub fn apply<S, G>(&mut self, cmd: &EngineCmd<S, G>)
        ensures
            *final(self) == apply_spec(*old(self), *cmd),
    {
        match cmd {
            EngineCmd::Play => {
                self.playing = true;
                if !self.muted {
                    self.gain_up = true;
                }
            },
            EngineCmd::Pause => {
                self.gain_up = false;
            },
            EngineCmd::Mute(on) => {
                self.muted = *on;
                self.gain_up = !*on && self.playing;
            },
            _ => {},
        }
    }

    /// A block can be skipped as silence: not playing and already silent.
    pub fn idle(&self, gain_is_zero: bool) -> (b: bool)
        ensures
            b == (!self.playing && gain_is_zero),
    {
        !self.playing && gain_is_zero
    }

    /// The song ran out: stop and ramp down.
    pub fn finish(&mut self)
        ensures
            !final(self).playing,
            !final(self).gain_up,
            final(self).muted == old(self).muted,
    {
        self.playing = false;
        self.gain_up = false;
    }

    /// After a block: a completed ramp-down means pause, unless muted (a
    /// muted pipeline keeps playing silently).
    pub fn settle(&mut self, gain_is_zero: bool)
        ensures
            *final(self) == settle_spec(*old(self), gain_is_zero),
    {
        if !self.gain_up && gain_is_zero && !self.muted {
            self.playing = false;
        }
    }
}

/// Muting a playing transport silences it but never stops playback, however
/// the blocks after it end; unmuting it then ramps the gain back up.
pub proof fn lemma_mute_keeps_playing<S, G>(t: Transport, gain_is_zero: bool)
    requires
        t.playing,
    ensures
        ({
            let m = apply_spec(t, EngineCmd::<S, G>::Mute(true));
            &&& !m.gain_up
            &&& settle_spec(m, gain_is_zero).playing
            &&& apply_spec(settle_spec(m, gain_is_zero), EngineCmd::<S, G>::Mute(false)).gain_up
        }),
{
}

/// Pausing an unmuted transport stops playback once its gain has ramped to
/// zero, and not before.
pub proof fn lemma_pause_stops_when_silent<S, G>(t: Transport, gain_is_zero: bool)
    requires
        t.playing,
        !t.muted,
    ensures
        settle_spec(apply_spec(t, EngineCmd::<S, G>::Pause), gain_is_zero).playing == !gain_is_zero,
{
}

} // verus!
