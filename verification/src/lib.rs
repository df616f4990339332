//! Directed acyclic computation pipelines: stages, the registry that holds
//! their nodes, and the graph that orders their evaluation.
pub mod text;
pub mod stage;
pub mod registry;
pub mod graphs;
pub mod dag;
pub mod error;
pub mod node;
pub mod config;
pub mod laws;
