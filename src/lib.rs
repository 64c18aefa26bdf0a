//! A small property-graph store: labelled nodes and edges with string
//! properties, derived adjacency and relation views, path search, a
//! block-structured file format, and a two-tier storage service.

pub mod pairs;
pub mod text;
pub mod table;
pub mod groups;
pub mod properties;
pub mod node;
pub mod edge;
pub mod id_generator;
pub mod graph_error;
pub mod graph;
pub mod traversal;
pub mod codec;
pub mod gph_file;
pub mod named;
pub mod in_memory_storage;
pub mod disk_storage;
pub mod manager;
pub mod graph_service;
pub mod auth;
pub mod cli;
