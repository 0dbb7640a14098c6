//! Errors of compiled graphs.
use crate::graph::GraphError;
use vstd::prelude::*;
use vstd::std_specs::convert::FromSpecImpl;

verus! {

/// Why compiling or running a compiled graph failed.
#[derive(Debug)]
pub enum JITError {
    /// The graph itself is invalid.
    Graph(GraphError),
    /// Code generation failed.
    Compilation(String),
    /// The compiled graph is not in a state to run.
    InvalidState(String),
}

impl From<GraphError> for JITError {
    fn from(err: GraphError) -> (e: JITError) {
        JITError::Graph(err)
    }
}

impl FromSpecImpl<GraphError> for JITError {
    open spec fn obeys_from_spec() -> bool {
        true
    }

    open spec fn from_spec(err: GraphError) -> JITError {
        JITError::Graph(err)
    }
}

} // verus!
