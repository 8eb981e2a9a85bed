//! What the audio callback keeps between blocks: the lock-free calibration
//! slot shared with the control thread, the block size it renders, and the
//! user volume it latches so that the volume survives song swaps.
use vstd::prelude::*;
use std::sync::atomic::{AtomicBool, AtomicI64};
use crate::engine_state::{lemma_observe_all_append, lemma_observe_one, observe_all, EngineCmd, EngineView};

verus! {

/// One-shot loopback round-trip-latency calibration request. The control
/// thread sets `pending`; the output callback emits a short impulse on its next
/// block, records in `emit_ns` the graph-clock time it went out, and clears
/// `pending`. Atomics only: safe to touch from the real-time thread.
pub struct ImpulseSlot {
    pub pending: AtomicBool,
    pub emit_ns: AtomicI64,
}

impl ImpulseSlot {
    /// No request pending, nothing emitted yet. What an atomic holds is not a
    /// value the verifier sees, so these starting contents are not stated.
    pub fn new() -> ImpulseSlot {
        ImpulseSlot { pending: AtomicBool::new(false), emit_ns: AtomicI64::new(0) }
    }
}

/// Upper bound on frames per output callback that the render buffer holds.
pub const MAX_QUANTUM_FRAMES: usize = 8192;

/// Bytes per interleaved stereo `f32` frame.
pub const FRAME_BYTES: usize = 8;

/// How many frames an output callback renders: what the mapped device buffer
/// holds, at most `MAX_QUANTUM_FRAMES`, and at most what the device requested
/// when it requested any.
pub fn output_block_frames(buffer_bytes: usize, requested: usize) -> (n: usize)
    ensures
        n <= MAX_QUANTUM_FRAMES,
        n * FRAME_BYTES <= buffer_bytes,
        requested > 0 ==> n <= requested,
        n == ({
            let fit = if buffer_bytes / FRAME_BYTES < MAX_QUANTUM_FRAMES { buffer_bytes / FRAME_BYTES } else { MAX_QUANTUM_FRAMES };
            if requested > 0 && requested < fit { requested } else { fit }
        }),
{
    let by_size = buffer_bytes / FRAME_BYTES;
    let mut n = if by_size < MAX_QUANTUM_FRAMES { by_size } else { MAX_QUANTUM_FRAMES };
    if requested > 0 && requested < n {
        n = requested;
    }
    n
}

/// The volume latched after command `c`, starting from `volume`.
pub open spec fn latch_one<S, G>(volume: G, c: EngineCmd<S, G>) -> G {
    match c {
        EngineCmd::SetVolume(g) => g,
        _ => volume,
    }
}

/// The volume latched after `cmds`, starting from `volume`: the gain of the
/// last `SetVolume` among them, or `volume` when there is none.
pub open spec fn latch_all<S, G>(volume: G, cmds: Seq<EngineCmd<S, G>>) -> G
    decreases cmds.len(),
{
    if cmds.len() == 0 {
        volume
    } else {
        latch_one(latch_all(volume, cmds.drop_last()), cmds.last())
    }
}

/// The user volume as the audio callback holds it, apart from any pipeline:
/// every `SetVolume` on its way to the pipeline is latched here, so a volume
/// set before any song is loaded, or before a song swap builds a fresh
/// pipeline, is not lost.
pub struct VolumeLatch<G> {
    pub volume: G,
}

impl<G: Copy> VolumeLatch<G> {
    /// A latch holding `volume` (the pipeline's default to start with).
    pub fn new(volume: G) -> (r: Self)
        ensures
            r.volume == volume,
    {
        VolumeLatch { volume }
    }

    /// Take in a command on its way to the pipeline: a `SetVolume` replaces
    /// the latched volume, anything else leaves it.
    pub fn observe<S>(&mut self, cmd: &EngineCmd<S, G>)
        ensures
            final(self).volume == latch_one(old(self).volume, *cmd),
    {
        if let EngineCmd::SetVolume(v) = cmd {
            self.volume = *v;
        }
    }

    /// The command that seeds a pipeline built for a new song: the latched
    /// volume.
    pub fn seed<S>(&self) -> (c: EngineCmd<S, G>)
        ensures
            c == EngineCmd::<S, G>::SetVolume(self.volume),
    {
        EngineCmd::SetVolume(self.volume)
    }
}

/// Latching one more command moves the latch exactly as `observe` does.
pub proof fn lemma_latch_step<S, G>(volume: G, cmds: Seq<EngineCmd<S, G>>, c: EngineCmd<S, G>)
    ensures
        latch_all(volume, cmds.push(c)) == latch_one(latch_all(volume, cmds), c),
{
    assert(cmds.push(c).drop_last() == cmds);
}

/// The volume survives a song swap: a pipeline seeded with the latched volume
/// and then handed the commands `cmds` plays at the volume the latch holds
/// after the same commands, whatever the pipeline held before.
pub proof fn lemma_volume_survives_swap<S, G>(latched: G, pipeline: EngineView<S, G>, cmds: Seq<EngineCmd<S, G>>)
    ensures
        observe_all(pipeline, seq![EngineCmd::<S, G>::SetVolume(latched)] + cmds).volume
            == Some(latch_all(latched, cmds)),
    decreases cmds.len(),
{
    let seeded = seq![EngineCmd::<S, G>::SetVolume(latched)];
    if cmds.len() == 0 {
        assert(seeded + cmds == seeded);
        lemma_observe_one(pipeline, seeded[0]);
    } else {
        let init = cmds.drop_last();
        let c = cmds.last();
        lemma_volume_survives_swap(latched, pipeline, init);
        assert(seeded + cmds == (seeded + init) + seq![c]);
        lemma_observe_all_append(pipeline, seeded + init, seq![c]);
        lemma_observe_one(observe_all(pipeline, seeded + init), c);
    }
}

} // verus!
