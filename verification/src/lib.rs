//! A scalar reverse-mode automatic-differentiation engine.
//!
//! Expressions over double-precision scalars are built lazily as a directed
//! acyclic graph of arithmetic nodes held in an arena ([`value::Tape`]);
//! a handle ([`value::Value`]) names one node. Differentiating a root node
//! walks the reachable subgraph once, in reverse topological order, and
//! accumulates into every node the partial derivative of the root with
//! respect to that node.

pub mod layer;
pub mod mlp;
pub mod neuron;
pub mod scalar;
pub mod traverse;
pub mod value;
pub mod view;
