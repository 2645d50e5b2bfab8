//! Lowering of elementwise binary tensor operations to an external proving
//! runner: broadcasting, row-major expansion, input encoding, and the graph
//! rewrite that installs the verifiable operator.

pub mod shape;
pub mod expand;
pub mod serialization;
pub mod prim;
