//! Type-level dispatch for cross-rate graph edges: markers for endpoint
//! kinds, connection policies and rate directions, and the table of
//! supported `(source kind, destination kind, policy, factor, direction)`
//! combinations with the per-edge state each needs.
use vstd::prelude::*;

pub mod __private_assert;
pub mod event;
pub mod value;

verus! {

/// Endpoint-kind markers.
#[derive(Debug, Clone, Copy, Default)]
pub struct StreamKind;

#[derive(Debug, Clone, Copy, Default)]
pub struct ValueKind;

#[derive(Debug, Clone, Copy, Default)]
pub struct EventKind;

/// Arrays of event outputs (voice-allocator style): recognised as a kind but
/// never dispatched across rates.
#[derive(Debug, Clone, Copy, Default)]
pub struct EventArrayKind;

/// Connection policy markers.
#[derive(Debug, Clone, Copy, Default)]
pub struct DefaultPolicy;

#[derive(Debug, Clone, Copy, Default)]
pub struct SincPolicy;

#[derive(Debug, Clone, Copy, Default)]
pub struct SincIirPolicy;

#[derive(Debug, Clone, Copy, Default)]
pub struct LinearPolicy;

#[derive(Debug, Clone, Copy, Default)]
pub struct LatchPolicy;

/// Cross-rate direction markers.
#[derive(Debug, Clone, Copy, Default)]
pub struct UpDir;

#[derive(Debug, Clone, Copy, Default)]
pub struct DownDir;

/// Per-endpoint type-level query: the kind of the endpoint named by
/// `Marker`, and the frame type it carries.
pub trait EndpointAt<Marker> {
    type Kind;

    type Frame;
}

/// Cross-rate edge state table: an implementation for a `(SrcKind,
/// DstKind, Policy, N, Dir)` tuple declares that the edge is supported and
/// what per-edge state it keeps.
pub trait CrossRateKernel<SrcKind, DstKind, Policy, const N: u32, Dir> {
    type State: Default + Send;
}

} // verus!
