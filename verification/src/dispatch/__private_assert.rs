//! Kind assertions emitted by generated code.
use super::StreamKind;
use vstd::prelude::*;

verus! {

/// Implemented only by the stream kind.
pub trait IsStream {}

impl IsStream for StreamKind {}

} // verus!
