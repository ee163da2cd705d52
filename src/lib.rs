//! The core of a polyphonic audio processing framework: a graph of processing nodes compiled
//! into a flat schedule with buffer reuse, the buffers handed to a node while it runs, and the
//! integer side of a polyphonic wavetable oscillator (voice allocation, voice clusters, unison
//! layout and wavetable offsets), plus the lock-free handoff of shared assets.
use vstd::prelude::*;

pub mod audio_graph;
pub mod buffer;
pub mod cluster;
pub mod delay;
pub mod graph;
pub mod lender;
pub mod processor;
pub mod unison;
pub mod util;
pub mod voice;
pub mod wavetable;

verus! {

} // verus!
