//! Graph intermediate representation for compilation.

pub mod ir;
pub mod runtime;
