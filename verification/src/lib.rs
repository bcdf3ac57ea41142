//! Logical graph sharding: placement strategies, two-hop queries, shard-local
//! adjacency caches, replication, snapshots and community splitting.

pub mod error;
pub mod text;
pub mod cache;
pub mod twohop;
pub mod graph;
pub mod rank;
pub mod balanced;
pub mod sharded;
pub mod stats;
pub mod replication;
pub mod splitting;
pub mod placement_text;
pub mod persistence;
pub mod text_format;
pub mod log_text;
pub mod cache_benchmark;
pub mod workload;
pub mod hub;
pub mod measure;
pub mod uneven;
pub mod distributed;
pub mod rebalance;
pub mod properties;

pub use graph::{CachedTwoHopResult, Graph, User};
