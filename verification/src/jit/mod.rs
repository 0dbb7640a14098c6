//! Layout of node state, IO and parameters for compiled graphs, and the
//! errors of compiled graphs.

pub mod jit_graph;
pub mod memory_layout;
