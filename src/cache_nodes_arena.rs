//! `NodeArena`: the S3-FIFO engine named for its node arena.
use vstd::prelude::*;
pub use crate::node_list::NodeRef;
use crate::cache_shard::CacheShard;

verus! {

/// The S3-FIFO engine over its node arena: another name for `CacheShard`.
pub type NodeArena<K> = CacheShard<K>;

} // verus!
