//! Builds a queryable package graph from resolved dependency metadata and raw
//! manifest declarations, with cross-platform relative paths, build-target
//! classification, dependency matching and a cycle-tolerant topological order.

pub mod text;
pub mod paths;
pub mod metadata;
pub mod targets;
pub mod errors;
pub mod platform;
pub mod conditions;
pub mod matcher;
pub mod features;
pub mod graph;
pub mod cli;
pub mod generate;
pub mod topo;
