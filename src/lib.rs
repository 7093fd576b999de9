//! Dependency-graph analysis kernels for code navigation: the graph
//! representation behind PageRank, hub detection by in-degree, and a
//! cascade resolver from import strings to file paths.

pub mod graph;
pub mod hub_detection;
pub mod import_resolver;
pub mod tables;
pub mod text;
