//! Metronome sound kits: which voice a beat sounds, and the one-shot voice
//! that plays it.
use vstd::prelude::*;

verus! {

/// Which beats of the bar actually click.
#[derive(Debug, Clone, Copy, PartialEq, Eq, Structural)]
pub enum Cadence {
    EveryBeat,
    HalfBar,
    EveryBar,
}

/// A sound kit: a downbeat sound paired with an other-beats sound.
#[derive(Debug, Clone, Copy, PartialEq, Eq, Structural)]
pub enum Kit {
    Click,
    KickSnare,
    Cowbell,
}

/// One concrete voice the metronome can sound on a beat.
#[derive(Debug, Clone, Copy, PartialEq, Eq, Structural)]
pub enum Sound {
    ClickHi,
    ClickLo,
    Kick,
    Snare,
    CowbellHi,
    CowbellLo,
}

/// The voice a kit uses for a beat: accent (downbeat) vs the rest.
pub open spec fn spec_sound_for(kit: Kit, accent: bool) -> Sound {
    match kit {
        Kit::Click => if accent { Sound::ClickHi } else { Sound::ClickLo },
        Kit::KickSnare => if accent { Sound::Kick } else { Sound::Snare },
        Kit::Cowbell => if accent { Sound::CowbellHi } else { Sound::CowbellLo },
    }
}

/// The voice a kit uses for a beat: accent (downbeat) vs the rest.
pub fn sound_for(kit: Kit, accent: bool) -> (s: Sound)
    ensures
        s == spec_sound_for(kit, accent),
{
    match (kit, accent) {
        (Kit::Click, true) => Sound::ClickHi,
        (Kit::Click, false) => Sound::ClickLo,
        (Kit::KickSnare, true) => Sound::Kick,
        (Kit::KickSnare, false) => Sound::Snare,
        (Kit::Cowbell, true) => Sound::CowbellHi,
        (Kit::Cowbell, false) => Sound::CowbellLo,
    }
}

/// Every kit sounds a different voice on the downbeat than on other beats.
pub proof fn lemma_accent_differs(kit: Kit)
    ensures
        spec_sound_for(kit, true) != spec_sound_for(kit, false),
{
}

/// One step of the xorshift generator behind the noise source.
pub open spec fn spec_xorshift32(x: u32) -> u32 {
    let a = x ^ (x << 13u32);
    let b = a ^ (a >> 17u32);
    b ^ (b << 5u32)
}

/// Advance the noise generator's state by one xorshift step.
pub fn xorshift32(x: u32) -> (r: u32)
    ensures
        r == spec_xorshift32(x),
{
    let mut x = x;
    x ^= x << 13u32;
    x ^= x >> 17u32;
    x ^= x << 5u32;
    x
}

/// A nonzero generator state never becomes zero (the generator never sticks).
pub proof fn lemma_xorshift_nonzero(x: u32)
    requires
        x != 0,
    ensures
        spec_xorshift32(x) != 0,
{
    assert(x != 0 ==> ((x ^ (x << 13u32)) ^ ((x ^ (x << 13u32)) >> 17u32))
        ^ (((x ^ (x << 13u32)) ^ ((x ^ (x << 13u32)) >> 17u32)) << 5u32) != 0) by (bit_vector);
}

/// A one-shot retriggerable voice: silent until triggered, then sounding
/// frame by frame until its envelope decays to silence.
#[derive(Debug, Clone, Copy, PartialEq, Eq, Structural)]
pub struct Voice {
    /// Frames since the trigger.
    pub age: usize,
    pub sound: Sound,
    pub silent: bool,
}

impl Default for Voice {
    fn default() -> (v: Voice)
        ensures
            v.age == 0,
            v.sound == Sound::ClickLo,
            v.silent,
    {
        Voice { age: 0, sound: Sound::ClickLo, silent: true }
    }
}

impl Voice {
    /// Start `sound` from the top of its envelope.
    pub fn trigger(&mut self, sound: Sound)
        ensures
            *final(self) == (Voice { age: 0, sound, silent: false }),
    {
        self.sound = sound;
        self.age = 0;
        self.silent = false;
    }

    /// Account for one rendered frame: a sounding voice ages by one frame and
    /// falls silent once its envelope has decayed (a zero sample after the
    /// first frame). A silent voice is unchanged.
    pub fn step(&mut self, sample_was_zero: bool)
        ensures
            old(self).silent ==> *final(self) == *old(self),
            !old(self).silent ==> ({
                let age = if old(self).age < usize::MAX { old(self).age + 1 } else { usize::MAX as int };
                *final(self) == (Voice {
                    age: age as usize,
                    sound: old(self).sound,
                    silent: sample_was_zero && age > 1,
                })
            }),
    {
        if self.silent {
            return;
        }
        self.age = if self.age < usize::MAX { self.age + 1 } else { usize::MAX };
        if sample_was_zero && self.age > 1 {
            self.silent = true;
        }
    }
}

} // verus!
