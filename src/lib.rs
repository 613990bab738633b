//! Compact, index-addressed storage of a hyperlink graph, the transforms
//! between such stores, and the graph algorithms that run on them.

pub mod algo;
pub mod data;
pub mod edit;
pub mod graph;
pub mod info;
pub mod ingest;
pub mod pg;
pub mod queue;
pub mod search;
pub mod store;
pub mod title;
pub mod util;
