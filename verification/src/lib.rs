//! A least-recently-used cache: a single-shard cache kept in an arena of
//! doubly linked slots with a hash index, and a sharded cache that spreads
//! its keys over several of them.
//!
//! `model` states what a cache means (its entries in recency order and what
//! each operation does to them), `laws` proves what follows for sequences of
//! operations, and the two cache types are verified against the model.
pub mod basic_lru_cache;
pub mod laws;
pub mod list;
pub mod model;
pub mod sharded_lru_cache;

pub use basic_lru_cache::{BasicLruCache, Cache};
pub use sharded_lru_cache::ShardedLruCache;
