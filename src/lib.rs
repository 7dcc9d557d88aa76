//! Trace-driven simulation of lease-based cache replacement, with an LRU
//! baseline and an analytic oracle, all specified and proved with Verus.

pub mod address;
pub mod cache;
pub mod driver;
pub mod laws;
pub mod lease_table;
pub mod lines;
pub mod lru_sim;
pub mod oracle;
pub mod parse;
pub mod random;
pub mod text;
pub mod virtual_cache;
