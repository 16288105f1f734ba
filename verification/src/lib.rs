//! Reverse-mode automatic differentiation over a scalar computation graph,
//! with a small feed-forward network built on top of it.
//!
//! The graph is an arena: every operation appends one node that records its
//! operands by index, so an operand always stands before the node that
//! consumes it. The backward pass relies on exactly that order.

pub mod scalar;
pub mod formula;
pub mod engine;
pub mod network;

pub use engine::{Graph, NodeModel, Operation, Value};
pub use formula::Formula;
pub use scalar::Scalar;
