//! Reverse-mode automatic differentiation over scalars, recorded on a tape,
//! and a multi-layer perceptron trained by gradient descent on top of it.
//!
//! The tape (`state`) is an arena of nodes in topological order; `node` holds
//! the forward operations and the backward pass; `neuron`, `layer` and `mlp`
//! wire those operations into a network. Arithmetic on values goes through
//! the `scalar::Scalar` trait, which the user of the library implements.

pub mod layer;
pub mod mlp;
pub mod neuron;
pub mod node;
pub mod scalar;
pub mod state;
