//! An undirected graph of named nodes, kept in singly linked lists.
pub mod graph;
pub mod ingest;
pub mod laws;
pub mod list;
pub mod model;
pub mod prompt;
pub mod record;
pub mod source;
pub mod text;
