//! A reverse-mode automatic-differentiation engine over scalar values,
//! plus a small feed-forward network built on it. Scalar values are
//! IEEE-754 binary64 numbers carried as `u64` bit patterns; the graph is
//! an arena of nodes addressed by stable indices.

pub mod arith;
pub mod graph;
pub mod mlp;

