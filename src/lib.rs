//! An in-process, bounded-size key-value cache with S3-FIFO admission and eviction.
//!
//! - `node_list`: arena slots and the circular queues threaded through them.
//! - `tally`: sums of slot weights and counters over a queue.
//! - `slot_index`: keys, and the hash index from a key's hash to its slot.
//! - `cache_shard`: one shard, the S3-FIFO engine with its contracts.
//! - `laws`: what holds across the shard's operations.
//! - `cache`: the sharded, locked cache with encoded values.
use vstd::prelude::*;

pub mod cache;
pub mod cache_nodes_arena;
pub mod cache_shard;
pub mod laws;
pub mod node_list;
pub mod slot_index;
pub mod tally;

pub use cache::{AlsoCache, CacheError, DefaultWeighter, Weighter};
pub use cache_shard::CacheShard;
pub use node_list::{NodeRef, QueueTypeId};
pub use slot_index::CacheKey;

verus! {

} // verus!
