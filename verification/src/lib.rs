//! Verified core of the oscen audio-graph library: graph topology,
//! endpoint bookkeeping, MIDI byte handling, memory layout and the
//! module rack with its filter builders.

pub mod graph;
pub mod rack;
pub mod fil;
pub mod filters;
pub mod midi;
pub mod jit;
pub mod dispatch;
pub mod instruments;
pub mod asset;
pub mod convolution;
