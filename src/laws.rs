//! Laws of a shard, proved from the contracts of its operations.
use vstd::prelude::*;
use crate::cache_shard::{CacheShard, bumped};
use crate::node_list::{QueueTypeId, walk_next, lemma_walk_returns};
use crate::slot_index::CacheKey;
use crate::tally::{weight_sum, live_weight_sum, lemma_live_weight_full};

verus! {

/// No queue of a well-formed shard is over its threshold.
pub proof fn law_sizes_within_thresholds<K: CacheKey>(s: CacheShard<K>)
    requires
        s.wf(),
    ensures
        s.size(QueueTypeId::Small) <= s.threshold(QueueTypeId::Small),
        s.size(QueueTypeId::Main) <= s.threshold(QueueTypeId::Main),
        s.size(QueueTypeId::GhostQueue) <= s.threshold(QueueTypeId::GhostQueue),
{
    s.lemma_queue_shape(QueueTypeId::Small);
    s.lemma_queue_shape(QueueTypeId::Main);
    s.lemma_queue_shape(QueueTypeId::GhostQueue);
}

/// Each queue's recorded size is the total weight of its members.
pub proof fn law_sizes_are_weights<K: CacheKey>(s: CacheShard<K>)
    requires
        s.wf(),
    ensures
        s.size(QueueTypeId::Small) + s.size(QueueTypeId::Main) == weight_sum(
            s.nodes_view(),
            s.members(QueueTypeId::Small),
        ) + weight_sum(s.nodes_view(), s.members(QueueTypeId::Main)),
        s.size(QueueTypeId::GhostQueue) == weight_sum(s.nodes_view(), s.members(QueueTypeId::GhostQueue)),
{
    s.lemma_queue_shape(QueueTypeId::Small);
    s.lemma_queue_shape(QueueTypeId::Main);
    s.lemma_queue_shape(QueueTypeId::GhostQueue);
}

/// Every key the index resolves sits in a slot that holds that key, under that hash,
/// in one of the three queues.
pub proof fn law_index_resolves<K: CacheKey>(s: CacheShard<K>, hash: u64, key: K::V)
    requires
        s.wf(),
        s.lookup(hash, key) is Some,
    ensures
        ({
            let i = s.lookup(hash, key)->0;
            &&& s.index().contains_key(i)
            &&& s.keys_view()[i as int]@ == key
            &&& s.nodes_view()[i as int].hash == hash
            &&& s.nodes_view()[i as int].queue != QueueTypeId::NoQueue
        }),
{
    let i = s.lookup(hash, key)->0;
    assert(s.holds_key(i, hash, key));
    s.lemma_index_live(i);
}

/// Ghost entries hold no value.
pub proof fn law_ghosts_empty<K: CacheKey>(s: CacheShard<K>, i: int)
    requires
        s.wf(),
        0 <= i < s.members(QueueTypeId::GhostQueue).len(),
    ensures
        s.nodes_view()[s.members(QueueTypeId::GhostQueue)[i] as int].data@.len() == 0,
{
    s.lemma_ghost_empty(i);
}

/// Counters stay within `[0, 3]`.
pub proof fn law_counters_bounded<K: CacheKey>(s: CacheShard<K>, k: int)
    requires
        s.wf(),
        0 <= k < s.nodes_view().len(),
    ensures
        s.nodes_view()[k].freq <= 3,
{
    s.lemma_counter_bound(k);
}

/// Following `next` from the head of a non-empty queue comes back to the head after
/// exactly as many steps as the queue has members, and that is the number of slots
/// tagged with the queue.
pub proof fn law_queue_walk<K: CacheKey>(s: CacheShard<K>, q: QueueTypeId)
    requires
        s.wf(),
        q != QueueTypeId::NoQueue,
        s.members(q).len() > 0,
    ensures
        ({
            let m = s.members(q);
            let head = s.head(q)->0.idx;
            &&& walk_next(s.nodes_view(), head, m.len()) == head
            &&& forall|i: nat| 0 < i < m.len() ==> #[trigger] walk_next(s.nodes_view(), head, i) != head
            &&& m.to_set() == Set::new(|j: usize| (j as int) < s.nodes_view().len() && s.nodes_view()[j as int].queue == q)
            &&& m.to_set().len() == m.len()
        }),
{
    s.lemma_queue_shape(q);
    let m = s.members(q);
    let nodes = s.nodes_view();
    lemma_walk_returns(nodes, m, m.len());
    assert forall|i: nat| 0 < i < m.len() implies #[trigger] walk_next(nodes, m[0], i) != m[0] by {
        lemma_walk_returns(nodes, m, i);
    }
    assert(m.to_set() =~= Set::new(|j: usize| (j as int) < nodes.len() && nodes[j as int].queue == q)) by {
        assert forall|j: usize| m.to_set().contains(j) implies (j as int) < nodes.len() && nodes[j as int].queue == q by {
            let i = choose|i: int| 0 <= i < m.len() && m[i] == j;
            assert(m[i] == j);
        }
    }
    m.unique_seq_to_set();
}

/// A read returns the value that the key's last write put there, when that write fit
/// in the queue it landed in and the value is not empty.
pub proof fn law_write_then_read<K: CacheKey>(
    s0: CacheShard<K>,
    s1: CacheShard<K>,
    s2: CacheShard<K>,
    hash: u64,
    key: K::V,
    w: u64,
    data: Seq<u8>,
    r: Option<Seq<u8>>,
)
    requires
        s0.wf(),
        s0.fits(hash, key, w),
        data.len() > 0,
        CacheShard::write_outcome(s0, s1, hash, key, w, data),
        CacheShard::read_outcome(s1, s2, hash, key, r),
    ensures
        r == Some(data),
{
}

/// After a delete, a read of the same key finds nothing, whatever came before.
pub proof fn law_delete_then_read<K: CacheKey>(
    s1: CacheShard<K>,
    s2: CacheShard<K>,
    s3: CacheShard<K>,
    hash: u64,
    key: K::V,
    d: bool,
    r: Option<Seq<u8>>,
)
    requires
        CacheShard::delete_outcome(s1, s2, hash, key, d),
        CacheShard::read_outcome(s2, s3, hash, key, r),
    ensures
        r is None,
{
}

/// Deleting an absent key returns false and leaves the shard exactly as it was.
pub proof fn law_delete_absent<K: CacheKey>(s0: CacheShard<K>, s1: CacheShard<K>, hash: u64, key: K::V, r: bool)
    requires
        s0.lookup(hash, key) is None,
        CacheShard::delete_outcome(s0, s1, hash, key, r),
    ensures
        !r,
        s1 == s0,
{
}

/// A second delete of the same key returns false.
pub proof fn law_delete_twice<K: CacheKey>(
    s0: CacheShard<K>,
    s1: CacheShard<K>,
    s2: CacheShard<K>,
    hash: u64,
    key: K::V,
    r1: bool,
    r2: bool,
)
    requires
        CacheShard::delete_outcome(s0, s1, hash, key, r1),
        CacheShard::delete_outcome(s1, s2, hash, key, r2),
    ensures
        !r2,
{
}

/// Two reads of a key return the same thing and leave every queue's members as they
/// were; the key's counter goes up by at most two, never past 3.
pub proof fn law_repeated_reads<K: CacheKey>(
    s0: CacheShard<K>,
    s1: CacheShard<K>,
    s2: CacheShard<K>,
    hash: u64,
    key: K::V,
    r1: Option<Seq<u8>>,
    r2: Option<Seq<u8>>,
)
    requires
        s0.wf(),
        CacheShard::read_outcome(s0, s1, hash, key, r1),
        CacheShard::read_outcome(s1, s2, hash, key, r2),
    ensures
        r2 == r1,
        s2.members(QueueTypeId::Small) == s0.members(QueueTypeId::Small),
        s2.members(QueueTypeId::Main) == s0.members(QueueTypeId::Main),
        s2.members(QueueTypeId::GhostQueue) == s0.members(QueueTypeId::GhostQueue),
        s0.lookup(hash, key) matches Some(i) ==> s2.nodes_view()[i as int] == bumped(bumped(s0.nodes_view()[i as int])),
        s0.lookup(hash, key) matches Some(i) ==> s2.nodes_view()[i as int].freq == if s0.nodes_view()[i as int].freq + 2 <= 3 {
            s0.nodes_view()[i as int].freq + 2
        } else {
            3
        },
        s0.lookup(hash, key) is None ==> s2.nodes_view() == s0.nodes_view(),
{
    CacheShard::lemma_read_keeps_lookup(s0, s1, hash, key, r1);
    if let Some(i) = s0.lookup(hash, key) {
        law_index_resolves(s0, hash, key);
        law_counters_bounded(s0, i as int);
    }
}

/// Writing a key that is already there keeps its slot, unless the cascade frees it.
pub proof fn law_rewrite_keeps_slot<K: CacheKey>(
    s0: CacheShard<K>,
    s1: CacheShard<K>,
    hash: u64,
    key: K::V,
    w: u64,
    data: Seq<u8>,
    i: usize,
)
    requires
        s0.lookup(hash, key) == Some(i),
        CacheShard::write_outcome(s0, s1, hash, key, w, data),
    ensures
        s1.lookup(hash, key) is None || s1.lookup(hash, key) == Some(i),
{
}

/// Every operation keeps each member of Small and Main holding a value, a write as long
/// as the value it writes is not empty; a new shard has no members at all.
pub proof fn law_values_stay_present<K: CacheKey>(
    s0: CacheShard<K>,
    s1: CacheShard<K>,
    hash: u64,
    key: K::V,
    w: u64,
    data: Seq<u8>,
    read: Option<Seq<u8>>,
    deleted: bool,
)
    requires
        s0.wf(),
        s0.values_present(),
    ensures
        CacheShard::read_outcome(s0, s1, hash, key, read) ==> s1.values_present(),
        CacheShard::write_outcome(s0, s1, hash, key, w, data) && data.len() > 0 ==> s1.values_present(),
        CacheShard::delete_outcome(s0, s1, hash, key, deleted) ==> s1.values_present(),
{
    if CacheShard::read_outcome(s0, s1, hash, key, read) {
        s0.lemma_queue_shape(QueueTypeId::Small);
        s0.lemma_queue_shape(QueueTypeId::Main);
        assert(s1.queue_kept(&s0, QueueTypeId::Small));
        assert(s1.queue_kept(&s0, QueueTypeId::Main));
        assert forall|i: int| 0 <= i < s1.members(QueueTypeId::Small).len() implies (#[trigger] s1.nodes_view()[s1.members(QueueTypeId::Small)[i] as int]).data@.len() > 0 by {
            let x = s0.members(QueueTypeId::Small)[i];
            assert((x as int) < s0.nodes_view().len());
            assert(s0.nodes_view()[s0.members(QueueTypeId::Small)[i] as int].data@.len() > 0);
        }
        assert forall|i: int| 0 <= i < s1.members(QueueTypeId::Main).len() implies (#[trigger] s1.nodes_view()[s1.members(QueueTypeId::Main)[i] as int]).data@.len() > 0 by {
            let x = s0.members(QueueTypeId::Main)[i];
            assert((x as int) < s0.nodes_view().len());
            assert(s0.nodes_view()[s0.members(QueueTypeId::Main)[i] as int].data@.len() > 0);
        }
    }
}

/// With every member of Small and Main holding a value, the weight of the Small and
/// Main entries that hold a value is the sum of the two queues' recorded sizes.
pub proof fn law_live_weight<K: CacheKey>(s: CacheShard<K>)
    requires
        s.wf(),
        s.values_present(),
    ensures
        live_weight_sum(s.nodes_view(), s.members(QueueTypeId::Small)) + live_weight_sum(
            s.nodes_view(),
            s.members(QueueTypeId::Main),
        ) == s.size(QueueTypeId::Small) + s.size(QueueTypeId::Main),
{
    s.lemma_queue_shape(QueueTypeId::Small);
    s.lemma_queue_shape(QueueTypeId::Main);
    lemma_live_weight_full(s.nodes_view(), s.members(QueueTypeId::Small));
    lemma_live_weight_full(s.nodes_view(), s.members(QueueTypeId::Main));
}

/// A new key whose value is heavier than Small's threshold but not than Ghost's is
/// admitted: Small drains, and the key stays recorded as a ghost entry of that weight,
/// which a later write brings back to Main.
pub proof fn law_oversized_value_admitted<K: CacheKey>(
    s0: CacheShard<K>,
    s1: CacheShard<K>,
    hash: u64,
    key: K::V,
    w: u64,
    data: Seq<u8>,
)
    requires
        s0.lookup(hash, key) is None,
        s0.threshold(QueueTypeId::Small) < w <= s0.threshold(QueueTypeId::GhostQueue),
        CacheShard::write_outcome(s0, s1, hash, key, w, data),
    ensures
        s1.members(QueueTypeId::Small).len() == 0,
        s1.lookup(hash, key) is Some,
        s1.nodes_view()[s1.lookup(hash, key)->0 as int].queue == QueueTypeId::GhostQueue,
        s1.nodes_view()[s1.lookup(hash, key)->0 as int].weight == w,
{
}

/// A new key whose value is heavier than both Small's and Ghost's thresholds (as one
/// as heavy as the shard's whole budget is) empties Small and Ghost of every earlier
/// entry, and is itself dropped.
pub proof fn law_budget_sized_value<K: CacheKey>(
    s0: CacheShard<K>,
    s1: CacheShard<K>,
    hash: u64,
    key: K::V,
    w: u64,
    data: Seq<u8>,
)
    requires
        s0.lookup(hash, key) is None,
        w > s0.threshold(QueueTypeId::Small),
        w > s0.threshold(QueueTypeId::GhostQueue),
        CacheShard::write_outcome(s0, s1, hash, key, w, data),
    ensures
        s1.members(QueueTypeId::Small).len() == 0,
        s1.members(QueueTypeId::GhostQueue).len() == 0,
        s1.lookup(hash, key) is None,
{
}

/// A new key whose weight is within Small's threshold is read back right after it is
/// written, whatever else the write evicted, when its value is not empty.
pub proof fn law_fresh_fitting_write_then_read<K: CacheKey>(
    s0: CacheShard<K>,
    s1: CacheShard<K>,
    s2: CacheShard<K>,
    hash: u64,
    key: K::V,
    w: u64,
    data: Seq<u8>,
    r: Option<Seq<u8>>,
)
    requires
        s0.lookup(hash, key) is None,
        w <= s0.threshold(QueueTypeId::Small),
        data.len() > 0,
        CacheShard::write_outcome(s0, s1, hash, key, w, data),
        CacheShard::read_outcome(s1, s2, hash, key, r),
    ensures
        r == Some(data),
{
}

} // verus!
