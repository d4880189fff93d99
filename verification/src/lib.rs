//! Filter-aware, hybrid vector search.

pub mod bytes;
pub mod distance;
pub mod filter;
pub mod floats;
pub mod fusion;
pub mod guc;
pub mod hnsw;
pub mod hybrid;
pub mod index_am;
pub mod messages;
pub mod pg_vector;
pub mod text;
pub mod vector;
