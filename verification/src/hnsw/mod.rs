//! In-memory HNSW (Hierarchical Navigable Small World) graph.

pub mod beam;
pub mod checks;
pub mod codec;
pub mod codec_laws;
pub mod complete;
pub mod exact;
pub mod filtered;
pub mod format;
pub mod found;
pub mod graph;
pub mod insert;
pub mod laws;
pub mod links;
pub mod params;
pub mod reach;
pub mod search;
pub mod source;
pub mod tiers;
pub mod wiring;

pub use graph::Hnsw;
pub use params::{HnswError, HnswParams};
