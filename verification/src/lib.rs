//! Reverse-mode automatic differentiation over dense tensors.
//!
//! Callers compose elementary operations into a dynamically built
//! computation graph, then request a forward evaluation and a backward
//! (gradient-accumulation) pass seeded by an upstream value.  The element
//! type is kept abstract behind the [`scalar::Scalar`] trait: the graph
//! bookkeeping, the evaluation order, the shape rules and the gradient
//! routing are all verified independently of the numeric substrate.

pub mod data;
pub mod graph;
pub mod history;
pub mod laws;
pub mod loss;
pub mod pad;
pub mod scalar;
pub mod tensor;
