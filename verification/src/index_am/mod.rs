//! The index access method: what its callbacks decide and compute.
//!
//! The callbacks themselves, and the pages, locks and catalogs they touch, are
//! the caller's. Here are the rules: what an operator class and a `WITH` clause
//! mean, what a scan key pushes down, which rows a scan yields, how an index is
//! laid out on pages, what a vacuum removes, and when a cached or pending graph
//! may be used.

pub mod attrs;
pub mod cache;
pub mod maintenance;
pub mod opclass;
pub mod options;
pub mod payload;
pub mod pending;
pub mod scan;
pub mod storage;
pub mod storage_laws;
pub mod stored;
