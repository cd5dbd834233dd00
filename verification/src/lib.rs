//! Core of a visual node-link workflow editor: the node/connection data
//! model, the derived directed-graph index used for traversal, the two-click
//! protocol that creates connections, and the dependency-ordered evaluator
//! that computes each node's output from its predecessors' results.

pub mod eval;
pub mod graph;
pub mod link;
pub mod model;
pub mod workspace;
