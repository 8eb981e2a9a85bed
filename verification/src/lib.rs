use vstd::prelude::*;

pub mod bundle;
pub mod capture;
pub mod device;
pub mod engine_state;
pub mod error;
pub mod hashing;
pub mod ids;
pub mod junction;
pub mod layers;
pub mod library;
pub mod looper;
pub mod metronome;
pub mod model;
pub mod naming;
pub mod notes;
pub mod order;
pub mod pipeline;
pub mod render_core;
pub mod ring;
pub mod runner;
pub mod schedule;
pub mod stem_gains;
pub mod sidecar;
pub mod stream_clock;
pub mod tempo;
pub mod text;

verus! {

} // verus!

