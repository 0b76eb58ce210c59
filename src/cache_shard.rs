//! One shard of the cache: the S3-FIFO engine over an arena of slots.
//!
//! New keys are admitted to the Small queue. When Small overflows, its oldest
//! entry moves to Main if it was read since admission and to Ghost (losing its
//! value) otherwise. Ghost overflow frees its oldest entries; Main overflow gives
//! its oldest entry a second chance per recorded read and frees it after that.
use vstd::prelude::*;
use crate::node_list::{
    Node, NodeRef, QueueTypeId, ring, queue_wf, younger, older, walk_next, lemma_walk_ring,
    lemma_walk_returns, same_payload, links_kept, outside_kept, lemma_queue_wf_frame, move_to_queue,
    detach_node, occupy_node, evict_node, get_node_ref,
};
use crate::slot_index::{CacheKey, SlotIndex, index_entries, slot_holds};
use crate::tally::{
    Tally, tally, tally_of, weight_sum, lemma_tally_push, lemma_tally_remove, lemma_tally_frame,
    lemma_tally_nonneg,
};

verus! {

/// One shard: an arena of slots, three queues threaded through it, and a hash index.
pub struct CacheShard<K> {
    map: SlotIndex,
    nodes_keys: Vec<K>,
    nodes: Vec<Node>,
    freelist: Vec<NodeRef>,
    small_size: u64,
    main_size: u64,
    ghost_size: u64,
    small_threshold: u64,
    main_threshold: u64,
    ghost_threshold: u64,
    small_head: Option<NodeRef>,
    main_head: Option<NodeRef>,
    ghost_head: Option<NodeRef>,
    small_members: Ghost<Seq<usize>>,
    main_members: Ghost<Seq<usize>>,
    ghost_members: Ghost<Seq<usize>>,
}

/// The bytes a read hands back, as a sequence.
pub open spec fn bytes_view(r: Option<Vec<u8>>) -> Option<Seq<u8>> {
    match r {
        Some(v) => Some(v@),
        None => None,
    }
}

/// The node after a read: its counter goes up by one, up to 3.
pub open spec fn bumped(n: Node) -> Node {
    Node { freq: if n.freq < 3 { (n.freq + 1) as u8 } else { n.freq }, ..n }
}

impl<K: CacheKey> CacheShard<K> {
    /// The slots of the arena.
    pub closed spec fn nodes_view(&self) -> Seq<Node> {
        self.nodes@
    }

    /// The key side table: the key each slot was last filled with.
    pub closed spec fn keys_view(&self) -> Seq<K> {
        self.nodes_keys@
    }

    /// The hash index: the live slots, each with the hash it is filed under.
    pub closed spec fn index(&self) -> Map<usize, u64> {
        index_entries(self.map)
    }

    /// The members of queue `q`, oldest first.
    pub closed spec fn members(&self, q: QueueTypeId) -> Seq<usize> {
        match q {
            QueueTypeId::Small => self.small_members@,
            QueueTypeId::Main => self.main_members@,
            QueueTypeId::GhostQueue => self.ghost_members@,
            QueueTypeId::NoQueue => Seq::empty(),
        }
    }

    /// The head (oldest member) of queue `q`.
    pub closed spec fn head(&self, q: QueueTypeId) -> Option<NodeRef> {
        match q {
            QueueTypeId::Small => self.small_head,
            QueueTypeId::Main => self.main_head,
            QueueTypeId::GhostQueue => self.ghost_head,
            QueueTypeId::NoQueue => None,
        }
    }

    /// The recorded size of queue `q`.
    pub closed spec fn size(&self, q: QueueTypeId) -> int {
        match q {
            QueueTypeId::Small => self.small_size as int,
            QueueTypeId::Main => self.main_size as int,
            QueueTypeId::GhostQueue => self.ghost_size as int,
            QueueTypeId::NoQueue => 0,
        }
    }

    /// The configured threshold of queue `q`.
    pub closed spec fn threshold(&self, q: QueueTypeId) -> int {
        match q {
            QueueTypeId::Small => self.small_threshold as int,
            QueueTypeId::Main => self.main_threshold as int,
            QueueTypeId::GhostQueue => self.ghost_threshold as int,
            QueueTypeId::NoQueue => 0,
        }
    }

    /// The invariant with one slot `d` possibly taken out of its queue: it is then
    /// tagged `NoQueue`, off the freelist, and still in the index.
    #[verifier::opaque]
    closed spec fn inv_with(&self, d: Option<usize>) -> bool {
        let nodes = self.nodes@;
        let keys = self.nodes_keys@;
        let index = index_entries(self.map);
        &&& keys.len() == nodes.len()
        &&& queue_wf(nodes, self.small_head, QueueTypeId::Small, self.small_members@)
        &&& queue_wf(nodes, self.main_head, QueueTypeId::Main, self.main_members@)
        &&& queue_wf(nodes, self.ghost_head, QueueTypeId::GhostQueue, self.ghost_members@)
        &&& self.small_size == weight_sum(nodes, self.small_members@)
        &&& self.main_size == weight_sum(nodes, self.main_members@)
        &&& self.ghost_size == weight_sum(nodes, self.ghost_members@)
        &&& self.small_size + self.main_size + self.ghost_size + self.detached_weight(d) <= u64::MAX
        &&& forall|i: int|
            0 <= i < self.ghost_members@.len() ==> (#[trigger] nodes[self.ghost_members@[i] as int]).data@.len()
                == 0
        &&& forall|k: int| 0 <= k < nodes.len() ==> (#[trigger] nodes[k]).freq <= 3
        &&& forall|i: int|
            0 <= i < self.freelist@.len() ==> {
                let k = (#[trigger] self.freelist@[i]).idx;
                &&& (k as int) < nodes.len()
                &&& nodes[k as int].queue == QueueTypeId::NoQueue
                &&& d != Some(k)
            }
        &&& forall|i: int, j: int|
            0 <= i < j < self.freelist@.len() ==> (#[trigger] self.freelist@[i]).idx != (
            #[trigger] self.freelist@[j]).idx
        &&& forall|k: usize|
            (k as int) < nodes.len() && #[trigger] nodes[k as int].queue == QueueTypeId::NoQueue && d
                != Some(k) ==> exists|i: int| 0 <= i < self.freelist@.len() && self.freelist@[i].idx == k
        &&& forall|k: usize|
            #[trigger] index.contains_key(k) <==> ((k as int) < nodes.len() && (nodes[k as int].queue
                != QueueTypeId::NoQueue || d == Some(k)))
        &&& forall|k: usize| #[trigger] index.contains_key(k) ==> index[k] == nodes[k as int].hash
        &&& forall|a: usize, b: usize|
            #[trigger] index.contains_key(a) && #[trigger] index.contains_key(b) && a != b ==> !(
            nodes[a as int].hash == nodes[b as int].hash && keys[a as int]@ == keys[b as int]@)
        &&& d matches Some(x) ==> (x as int) < nodes.len() && nodes[x as int].queue == QueueTypeId::NoQueue
    }

    /// The weight of the slot taken out of its queue, if any.
    closed spec fn detached_weight(&self, d: Option<usize>) -> int {
        match d {
            Some(x) => self.nodes@[x as int].weight as int,
            None => 0,
        }
    }

    /// The shard is well formed: the structure is consistent and no queue is over its threshold.
    pub closed spec fn wf(&self) -> bool {
        &&& self.inv_with(None)
        &&& self.small_size <= self.small_threshold
        &&& self.main_size <= self.main_threshold
        &&& self.ghost_size <= self.ghost_threshold
    }

    /// Slot `i` is live and holds `key` under `hash`.
    pub open spec fn holds_key(&self, i: usize, hash: u64, key: K::V) -> bool {
        &&& self.index().contains_key(i)
        &&& slot_holds(self.nodes_view(), self.keys_view(), i, hash, key)
    }

    /// The live slot that holds `key` under `hash`, if any.
    pub open spec fn lookup(&self, hash: u64, key: K::V) -> Option<usize> {
        if exists|i: usize| self.holds_key(i, hash, key) {
            Some(choose|i: usize| self.holds_key(i, hash, key))
        } else {
            None
        }
    }

    /// The value that a read of `key` under `hash` finds: none for an absent key or a
    /// ghost entry.
    pub open spec fn value_of(&self, hash: u64, key: K::V) -> Option<Seq<u8>> {
        match self.lookup(hash, key) {
            Some(i) => if self.nodes_view()[i as int].data@.len() > 0 {
                Some(self.nodes_view()[i as int].data@)
            } else {
                None
            },
            None => None,
        }
    }

    /// What a read of `key` under `hash` does: it returns the value the key holds (none
    /// for an absent key or a ghost entry) and bumps the counter of the key's slot, up
    /// to 3; nothing else changes.
    pub open spec fn read_outcome(a: Self, b: Self, hash: u64, key: K::V, r: Option<Seq<u8>>) -> bool {
        &&& r == a.value_of(hash, key)
        &&& (a.lookup(hash, key) is None ==> b == a)
        &&& b.same_layout(&a)
        &&& b.nodes_view() == (match a.lookup(hash, key) {
            Some(i) => a.nodes_view().update(i as int, bumped(a.nodes_view()[i as int])),
            None => a.nodes_view(),
        })
    }

    /// What a write of `data`, of weight `w`, to `key` under `hash` does.
    ///
    /// The write first admits a new key or updates the key's slot (`admit_outcome`),
    /// then evicts from Small, Ghost and Main in that order, each while over its
    /// threshold, one step at a time (`cascade`). The thresholds stay. A key that was
    /// there keeps its slot unless the cascade frees it. Afterwards the key holds `data`
    /// or no value, and every other key holds the value it held or none. When the write
    /// fits in the queue it lands in, nothing is evicted. A new key within Small's
    /// threshold stays Small's youngest member, unread, with `data`; one over it leaves
    /// Small, and stays as a ghost entry only if it is within Ghost's threshold.
    pub open spec fn write_outcome(a: Self, b: Self, hash: u64, key: K::V, w: u64, data: Seq<u8>) -> bool {
        &&& b.threshold(QueueTypeId::Small) == a.threshold(QueueTypeId::Small)
        &&& b.threshold(QueueTypeId::Main) == a.threshold(QueueTypeId::Main)
        &&& b.threshold(QueueTypeId::GhostQueue) == a.threshold(QueueTypeId::GhostQueue)
        &&& (a.lookup(hash, key) matches Some(i) ==> (b.lookup(hash, key) is None || b.lookup(hash, key) == Some(i)))
        &&& (b.value_of(hash, key) is None || b.value_of(hash, key) == Some(data))
        &&& forall|h2: u64, k2: K::V|
            !(h2 == hash && k2 == key) && (#[trigger] b.value_of(h2, k2)) is Some ==> b.value_of(h2, k2)
                == a.value_of(h2, k2)
        &&& (a.fits(hash, key, w) ==> b.value_of(hash, key) == (if data.len() > 0 {
            Some(data)
        } else {
            None
        }))
        &&& (a.fits(hash, key, w) ==> forall|h2: u64, k2: K::V|
            !(h2 == hash && k2 == key) ==> #[trigger] b.value_of(h2, k2) == a.value_of(h2, k2))
        &&& (a.values_present() && data.len() > 0 ==> b.values_present())
        &&& exists|m: Self, x: Self, y: Self|
            #![trigger Self::cascade(QueueTypeId::Small, m, x), Self::cascade(QueueTypeId::GhostQueue, x, y)]
            Self::admit_outcome(a, m, hash, key, w, data) && Self::cascade(QueueTypeId::Small, m, x)
                && Self::cascade(QueueTypeId::GhostQueue, x, y) && Self::cascade(QueueTypeId::Main, y, b)
        &&& (a.lookup(hash, key) is None && w <= a.threshold(QueueTypeId::Small) ==> (b.lookup(hash, key) matches Some(i)
            && {
            &&& b.nodes_view()[i as int].queue == QueueTypeId::Small
            &&& b.nodes_view()[i as int].freq == 0
            &&& b.nodes_view()[i as int].weight == w
            &&& b.nodes_view()[i as int].data@ == data
            &&& b.members(QueueTypeId::Small).last() == i
        }))
        &&& (a.lookup(hash, key) is None && w > a.threshold(QueueTypeId::Small) ==> {
            &&& b.members(QueueTypeId::Small).len() == 0
            &&& (w <= a.threshold(QueueTypeId::GhostQueue) ==> (b.lookup(hash, key) matches Some(i) && {
                &&& b.nodes_view()[i as int].queue == QueueTypeId::GhostQueue
                &&& b.nodes_view()[i as int].weight == w
                &&& b.value_of(hash, key) is None
            }))
            &&& (w > a.threshold(QueueTypeId::GhostQueue) ==> b.lookup(hash, key) is None && b.members(
                QueueTypeId::GhostQueue,
            ).len() == 0)
        })
    }

    /// What a delete of `key` under `hash` does: it returns whether the key was there;
    /// if it was, its slot is freed and nothing else changes but its queue's size and
    /// members; if it was not, nothing changes. Either way the key is gone.
    pub open spec fn delete_outcome(a: Self, b: Self, hash: u64, key: K::V, r: bool) -> bool {
        &&& r == (a.lookup(hash, key) is Some)
        &&& (!r ==> b == a)
        &&& (r ==> b.slot_removed(&a, a.lookup(hash, key)->0))
        &&& b.lookup(hash, key) is None
        &&& b.threshold(QueueTypeId::Small) == a.threshold(QueueTypeId::Small)
        &&& b.threshold(QueueTypeId::Main) == a.threshold(QueueTypeId::Main)
        &&& b.threshold(QueueTypeId::GhostQueue) == a.threshold(QueueTypeId::GhostQueue)
        &&& (a.values_present() ==> b.values_present())
    }

    /// What admitting a new key does: a slot `n`, reused from the freelist or appended,
    /// holds the key under `hash` with `data`, weight `w` and a cleared counter, as the
    /// youngest member of Small; nothing else changes.
    pub open spec fn admitted_new(a: Self, m: Self, hash: u64, key: K::V, w: u64, data: Seq<u8>) -> bool {
        m.lookup(hash, key) matches Some(n) && {
            &&& !a.index().contains_key(n)
            &&& m.index() == a.index().insert(n, hash)
            &&& m.keys_view()[n as int]@ == key
            &&& ((n as int) < a.nodes_view().len() ==> m.nodes_view().len() == a.nodes_view().len())
            &&& ((n as int) >= a.nodes_view().len() ==> n == a.nodes_view().len() && m.nodes_view().len()
                == a.nodes_view().len() + 1)
            &&& forall|k: int|
                0 <= k < a.nodes_view().len() && k != n ==> same_payload(#[trigger] m.nodes_view()[k], a.nodes_view()[k])
                    && m.nodes_view()[k].queue == a.nodes_view()[k].queue && m.keys_view()[k] == a.keys_view()[k]
            &&& m.nodes_view()[n as int].data@ == data
            &&& m.nodes_view()[n as int].weight == w
            &&& m.nodes_view()[n as int].freq == 0
            &&& m.nodes_view()[n as int].queue == QueueTypeId::Small
            &&& m.members(QueueTypeId::Small) == a.members(QueueTypeId::Small).push(n)
            &&& m.members(QueueTypeId::Main) == a.members(QueueTypeId::Main)
            &&& m.members(QueueTypeId::GhostQueue) == a.members(QueueTypeId::GhostQueue)
            &&& m.size(QueueTypeId::Small) == a.size(QueueTypeId::Small) + w
            &&& m.size(QueueTypeId::Main) == a.size(QueueTypeId::Main)
            &&& m.size(QueueTypeId::GhostQueue) == a.size(QueueTypeId::GhostQueue)
        }
    }

    /// What writing `data` of weight `w` to the key in live slot `i` does. The slot, the
    /// index, the key side table and the arena's length stay. In Small or Main the value
    /// and weight are replaced in place, the counter is bumped up to 3, and the queue's
    /// size changes by the difference of the weights. A ghost entry leaves Ghost (whose
    /// size drops by its old weight) and joins Main as youngest with a cleared counter
    /// (Main's size rises by the new weight).
    pub open spec fn updated(a: Self, m: Self, i: usize, w: u64, data: Seq<u8>) -> bool {
        let n = a.nodes_view()[i as int];
        &&& m.index() == a.index()
        &&& m.keys_view() == a.keys_view()
        &&& m.nodes_view().len() == a.nodes_view().len()
        &&& forall|k: int|
            0 <= k < a.nodes_view().len() && k != i ==> same_payload(#[trigger] m.nodes_view()[k], a.nodes_view()[k])
                && m.nodes_view()[k].queue == a.nodes_view()[k].queue
        &&& m.nodes_view()[i as int].data@ == data
        &&& m.nodes_view()[i as int].weight == w
        &&& m.nodes_view()[i as int].hash == n.hash
        &&& if n.queue == QueueTypeId::GhostQueue {
            &&& m.nodes_view()[i as int].queue == QueueTypeId::Main
            &&& m.nodes_view()[i as int].freq == 0
            &&& exists|j: int|
                0 <= j < a.members(QueueTypeId::GhostQueue).len() && a.members(QueueTypeId::GhostQueue)[j] == i
                    && m.members(QueueTypeId::GhostQueue) == a.members(QueueTypeId::GhostQueue).remove(j)
            &&& m.members(QueueTypeId::Main) == a.members(QueueTypeId::Main).push(i)
            &&& m.members(QueueTypeId::Small) == a.members(QueueTypeId::Small)
            &&& m.size(QueueTypeId::GhostQueue) == a.size(QueueTypeId::GhostQueue) - n.weight
            &&& m.size(QueueTypeId::Main) == a.size(QueueTypeId::Main) + w
            &&& m.size(QueueTypeId::Small) == a.size(QueueTypeId::Small)
        } else {
            &&& m.nodes_view()[i as int].queue == n.queue
            &&& m.nodes_view()[i as int].freq == bumped(n).freq
            &&& m.members(QueueTypeId::Small) == a.members(QueueTypeId::Small)
            &&& m.members(QueueTypeId::Main) == a.members(QueueTypeId::Main)
            &&& m.members(QueueTypeId::GhostQueue) == a.members(QueueTypeId::GhostQueue)
            &&& m.size(n.queue) == a.size(n.queue) - n.weight + w
            &&& (n.queue != QueueTypeId::Small ==> m.size(QueueTypeId::Small) == a.size(QueueTypeId::Small))
            &&& (n.queue != QueueTypeId::Main ==> m.size(QueueTypeId::Main) == a.size(QueueTypeId::Main))
            &&& m.size(QueueTypeId::GhostQueue) == a.size(QueueTypeId::GhostQueue)
        }
    }

    /// The state a write reaches before its eviction cascade.
    pub open spec fn admit_outcome(a: Self, m: Self, hash: u64, key: K::V, w: u64, data: Seq<u8>) -> bool {
        &&& m.threshold(QueueTypeId::Small) == a.threshold(QueueTypeId::Small)
        &&& m.threshold(QueueTypeId::Main) == a.threshold(QueueTypeId::Main)
        &&& m.threshold(QueueTypeId::GhostQueue) == a.threshold(QueueTypeId::GhostQueue)
        &&& match a.lookup(hash, key) {
            None => Self::admitted_new(a, m, hash, key, w, data),
            Some(i) => Self::updated(a, m, i, w, data),
        }
    }

    /// What one cascade step keeps: the key side table, the arena's length, the
    /// thresholds, and every slot but the moved head `h`, whose hash stays too.
    pub open spec fn step_frame(a: Self, b: Self, h: usize) -> bool {
        &&& b.keys_view() == a.keys_view()
        &&& b.nodes_view().len() == a.nodes_view().len()
        &&& b.threshold(QueueTypeId::Small) == a.threshold(QueueTypeId::Small)
        &&& b.threshold(QueueTypeId::Main) == a.threshold(QueueTypeId::Main)
        &&& b.threshold(QueueTypeId::GhostQueue) == a.threshold(QueueTypeId::GhostQueue)
        &&& forall|k: int|
            0 <= k < a.nodes_view().len() && k != h ==> same_payload(#[trigger] b.nodes_view()[k], a.nodes_view()[k])
                && b.nodes_view()[k].queue == a.nodes_view()[k].queue
        &&& b.nodes_view()[h as int].hash == a.nodes_view()[h as int].hash
    }

    /// One step of Small's eviction: the oldest Small entry leaves Small. If it was read,
    /// it joins Main as youngest with its counter cleared and its value kept; otherwise
    /// it joins Ghost as youngest with its value dropped and its weight kept.
    pub open spec fn small_step(a: Self, b: Self) -> bool {
        let s = a.members(QueueTypeId::Small);
        let h = s[0];
        let n = a.nodes_view()[h as int];
        &&& s.len() > 0
        &&& Self::step_frame(a, b, h)
        &&& b.index() == a.index()
        &&& b.members(QueueTypeId::Small) == s.drop_first()
        &&& b.size(QueueTypeId::Small) == a.size(QueueTypeId::Small) - n.weight
        &&& if n.freq > 0 {
            &&& b.members(QueueTypeId::Main) == a.members(QueueTypeId::Main).push(h)
            &&& b.members(QueueTypeId::GhostQueue) == a.members(QueueTypeId::GhostQueue)
            &&& b.size(QueueTypeId::Main) == a.size(QueueTypeId::Main) + n.weight
            &&& b.size(QueueTypeId::GhostQueue) == a.size(QueueTypeId::GhostQueue)
            &&& b.nodes_view()[h as int].queue == QueueTypeId::Main
            &&& b.nodes_view()[h as int].freq == 0
            &&& b.nodes_view()[h as int].data == n.data
            &&& b.nodes_view()[h as int].weight == n.weight
        } else {
            &&& b.members(QueueTypeId::GhostQueue) == a.members(QueueTypeId::GhostQueue).push(h)
            &&& b.members(QueueTypeId::Main) == a.members(QueueTypeId::Main)
            &&& b.size(QueueTypeId::GhostQueue) == a.size(QueueTypeId::GhostQueue) + n.weight
            &&& b.size(QueueTypeId::Main) == a.size(QueueTypeId::Main)
            &&& b.nodes_view()[h as int].queue == QueueTypeId::GhostQueue
            &&& b.nodes_view()[h as int].freq == 0
            &&& b.nodes_view()[h as int].data@.len() == 0
            &&& b.nodes_view()[h as int].weight == n.weight
        }
    }

    /// One step of Ghost's eviction: the oldest Ghost entry leaves Ghost. If it was read
    /// and holds a value, it joins Main as youngest with its counter cleared; otherwise
    /// its slot is freed and leaves the index.
    pub open spec fn ghost_step(a: Self, b: Self) -> bool {
        let s = a.members(QueueTypeId::GhostQueue);
        let h = s[0];
        let n = a.nodes_view()[h as int];
        &&& s.len() > 0
        &&& Self::step_frame(a, b, h)
        &&& b.members(QueueTypeId::GhostQueue) == s.drop_first()
        &&& b.members(QueueTypeId::Small) == a.members(QueueTypeId::Small)
        &&& b.size(QueueTypeId::GhostQueue) == a.size(QueueTypeId::GhostQueue) - n.weight
        &&& b.size(QueueTypeId::Small) == a.size(QueueTypeId::Small)
        &&& if n.freq > 0 && n.data@.len() > 0 {
            &&& b.index() == a.index()
            &&& b.members(QueueTypeId::Main) == a.members(QueueTypeId::Main).push(h)
            &&& b.size(QueueTypeId::Main) == a.size(QueueTypeId::Main) + n.weight
            &&& b.nodes_view()[h as int].queue == QueueTypeId::Main
            &&& b.nodes_view()[h as int].freq == 0
            &&& b.nodes_view()[h as int].data == n.data
            &&& b.nodes_view()[h as int].weight == n.weight
        } else {
            &&& b.index() == a.index().remove(h)
            &&& b.members(QueueTypeId::Main) == a.members(QueueTypeId::Main)
            &&& b.size(QueueTypeId::Main) == a.size(QueueTypeId::Main)
            &&& b.nodes_view()[h as int].queue == QueueTypeId::NoQueue
        }
    }

    /// One step of Main's eviction: the oldest Main entry leaves the head. If it was
    /// read, it gives up one count and goes back as the youngest member; otherwise its
    /// slot is freed and leaves the index.
    pub open spec fn main_step(a: Self, b: Self) -> bool {
        let s = a.members(QueueTypeId::Main);
        let h = s[0];
        let n = a.nodes_view()[h as int];
        &&& s.len() > 0
        &&& Self::step_frame(a, b, h)
        &&& b.members(QueueTypeId::Small) == a.members(QueueTypeId::Small)
        &&& b.members(QueueTypeId::GhostQueue) == a.members(QueueTypeId::GhostQueue)
        &&& b.size(QueueTypeId::Small) == a.size(QueueTypeId::Small)
        &&& b.size(QueueTypeId::GhostQueue) == a.size(QueueTypeId::GhostQueue)
        &&& if n.freq > 0 {
            &&& b.index() == a.index()
            &&& b.members(QueueTypeId::Main) == s.drop_first().push(h)
            &&& b.size(QueueTypeId::Main) == a.size(QueueTypeId::Main)
            &&& b.nodes_view()[h as int].queue == QueueTypeId::Main
            &&& b.nodes_view()[h as int].freq == n.freq - 1
            &&& b.nodes_view()[h as int].data == n.data
            &&& b.nodes_view()[h as int].weight == n.weight
        } else {
            &&& b.index() == a.index().remove(h)
            &&& b.members(QueueTypeId::Main) == s.drop_first()
            &&& b.size(QueueTypeId::Main) == a.size(QueueTypeId::Main) - n.weight
            &&& b.nodes_view()[h as int].queue == QueueTypeId::NoQueue
        }
    }

    /// One eviction step on queue `q`.
    pub open spec fn evict_step(q: QueueTypeId, a: Self, b: Self) -> bool {
        match q {
            QueueTypeId::Small => Self::small_step(a, b),
            QueueTypeId::GhostQueue => Self::ghost_step(a, b),
            QueueTypeId::Main => Self::main_step(a, b),
            QueueTypeId::NoQueue => false,
        }
    }

    /// `t` runs from `a` to `b` by eviction steps on `q`, each taken while `q` was over
    /// its threshold, and ends with `q` within it.
    pub open spec fn cascade_trace(q: QueueTypeId, t: Seq<Self>, a: Self, b: Self) -> bool {
        &&& t.len() > 0
        &&& t[0] == a
        &&& t[t.len() - 1] == b
        &&& forall|i: int|
            0 <= i < t.len() - 1 ==> (#[trigger] t[i]).size(q) > t[i].threshold(q) && Self::evict_step(q, t[i], t[i + 1])
        &&& b.size(q) <= b.threshold(q)
    }

    /// `b` is what evicting from `q` until it is within its threshold makes of `a`.
    pub open spec fn cascade(q: QueueTypeId, a: Self, b: Self) -> bool {
        exists|t: Seq<Self>| #[trigger] Self::cascade_trace(q, t, a, b)
    }

    /// `self` and `other` have the same keys, index, queues, sizes and thresholds.
    pub open spec fn same_layout(&self, other: &Self) -> bool {
        &&& self.keys_view() == other.keys_view()
        &&& self.index() == other.index()
        &&& self.others_kept_but(other, QueueTypeId::NoQueue)
        &&& self.threshold(QueueTypeId::Small) == other.threshold(QueueTypeId::Small)
        &&& self.threshold(QueueTypeId::Main) == other.threshold(QueueTypeId::Main)
        &&& self.threshold(QueueTypeId::GhostQueue) == other.threshold(QueueTypeId::GhostQueue)
    }

    /// At most one live slot holds a key under a hash.
    pub proof fn lemma_lookup_is(&self, i: usize, hash: u64, key: K::V)
        requires
            self.wf(),
            self.holds_key(i, hash, key),
        ensures
            self.lookup(hash, key) == Some(i),
    {
        reveal(CacheShard::inv_with);
        let j = choose|j: usize| self.holds_key(j, hash, key);
        assert(index_entries(self.map).contains_key(i));
        assert(index_entries(self.map).contains_key(j));
    }

    /// A queue's head is its oldest member, and there is none when it is empty.
    proof fn lemma_head_of_members(&self, q: QueueTypeId)
        requires
            self.inv_with(None),
            q != QueueTypeId::NoQueue,
        ensures
            self.head(q) == (if self.members(q).len() == 0 {
                None
            } else {
                Some(NodeRef { idx: self.members(q)[0] })
            }),
    {
        reveal(CacheShard::inv_with);
        assert(queue_wf(self.nodes@, self.head(q), q, self.members(q)));
    }

    /// A live slot is a member of a queue and is filed under its own hash.
    pub proof fn lemma_index_live(&self, i: usize)
        requires
            self.wf(),
            self.index().contains_key(i),
        ensures
            (i as int) < self.nodes_view().len(),
            (i as int) < self.keys_view().len(),
            self.nodes_view()[i as int].queue != QueueTypeId::NoQueue,
            self.index()[i] == self.nodes_view()[i as int].hash,
    {
        reveal(CacheShard::inv_with);
    }

    /// Ghost members hold no value.
    pub proof fn lemma_ghost_empty(&self, i: int)
        requires
            self.wf(),
            0 <= i < self.members(QueueTypeId::GhostQueue).len(),
        ensures
            self.nodes_view()[self.members(QueueTypeId::GhostQueue)[i] as int].data@.len() == 0,
    {
        reveal(CacheShard::inv_with);
    }

    /// Every counter is at most 3.
    pub proof fn lemma_counter_bound(&self, k: int)
        requires
            self.wf(),
            0 <= k < self.nodes_view().len(),
        ensures
            self.nodes_view()[k].freq <= 3,
    {
        reveal(CacheShard::inv_with);
    }

    /// A read leaves where the key is and what it holds.
    pub proof fn lemma_read_keeps_lookup(a: Self, b: Self, hash: u64, key: K::V, r: Option<Seq<u8>>)
        requires
            a.wf(),
            Self::read_outcome(a, b, hash, key, r),
        ensures
            b.lookup(hash, key) == a.lookup(hash, key),
            b.value_of(hash, key) == a.value_of(hash, key),
    {
        assert forall|j: usize| #[trigger] b.holds_key(j, hash, key) <==> a.holds_key(j, hash, key) by {
            if (j as int) < a.nodes_view().len() {
                if let Some(i) = a.lookup(hash, key) {
                    if j == i {
                        assert(b.nodes_view()[j as int].hash == a.nodes_view()[j as int].hash);
                    }
                }
            }
        }
        if let Some(i) = a.lookup(hash, key) {
            a.lemma_lookup_is(i, hash, key);
            assert(a.holds_key(i, hash, key));
            assert(b.holds_key(i, hash, key));
            let c = choose|c: usize| b.holds_key(c, hash, key);
            assert(a.holds_key(c, hash, key));
            a.lemma_lookup_is(c, hash, key);
        } else {
            assert forall|j: usize| !b.holds_key(j, hash, key) by {
                if b.holds_key(j, hash, key) {
                    assert(a.holds_key(j, hash, key));
                }
            }
        }
    }

    /// A shard with the given thresholds and nothing in it.
    pub fn new(small_threshold: u64, main_threshold: u64, ghost_threshold: u64) -> (r: Self)
        ensures
            r.wf(),
            r.threshold(QueueTypeId::Small) == small_threshold,
            r.threshold(QueueTypeId::Main) == main_threshold,
            r.threshold(QueueTypeId::GhostQueue) == ghost_threshold,
            r.index().dom().is_empty(),
            r.nodes_view().len() == 0,
            r.keys_view().len() == 0,
            forall|q: QueueTypeId| #[trigger] r.members(q).len() == 0,
    {
        proof {
            reveal(CacheShard::inv_with);
        }
        let r = CacheShard {
            map: SlotIndex::new(),
            nodes_keys: Vec::new(),
            nodes: Vec::new(),
            freelist: Vec::new(),
            small_size: 0,
            main_size: 0,
            ghost_size: 0,
            small_threshold,
            main_threshold,
            ghost_threshold,
            small_head: None,
            main_head: None,
            ghost_head: None,
            small_members: Ghost(Seq::empty()),
            main_members: Ghost(Seq::empty()),
            ghost_members: Ghost(Seq::empty()),
        };
        proof {
            assert forall|k: usize| #[trigger] index_entries(r.map).contains_key(k) <==> false by {
                assert(!index_entries(r.map).dom().contains(k));
            }
        }
        r
    }

    /// Like `new`, with room reserved for about `estimated_items_count` entries (at most
    /// `MAX_RESERVED`: reserving is only a hint).
    pub fn with_estimated_count(
        estimated_items_count: usize,
        small_threshold: u64,
        main_threshold: u64,
        ghost_threshold: u64,
    ) -> (r: Self)
        ensures
            r.wf(),
            r.threshold(QueueTypeId::Small) == small_threshold,
            r.threshold(QueueTypeId::Main) == main_threshold,
            r.threshold(QueueTypeId::GhostQueue) == ghost_threshold,
            r.index().dom().is_empty(),
            r.nodes_view().len() == 0,
            r.keys_view().len() == 0,
            forall|q: QueueTypeId| #[trigger] r.members(q).len() == 0,
    {
        proof {
            reveal(CacheShard::inv_with);
        }
        let capacity: usize = if estimated_items_count < MAX_RESERVED {
            estimated_items_count
        } else {
            MAX_RESERVED
        };
        let r = CacheShard {
            map: SlotIndex::with_capacity(capacity),
            nodes_keys: Vec::with_capacity(capacity),
            nodes: Vec::with_capacity(capacity),
            freelist: Vec::with_capacity(capacity / 4),
            small_size: 0,
            main_size: 0,
            ghost_size: 0,
            small_threshold,
            main_threshold,
            ghost_threshold,
            small_head: None,
            main_head: None,
            ghost_head: None,
            small_members: Ghost(Seq::empty()),
            main_members: Ghost(Seq::empty()),
            ghost_members: Ghost(Seq::empty()),
        };
        proof {
            assert forall|k: usize| #[trigger] index_entries(r.map).contains_key(k) <==> false by {
                assert(!index_entries(r.map).dom().contains(k));
            }
        }
        r
    }

    /// The live slot that holds `key` under `hash`.
    fn find_slot(&self, hash: u64, key: &K) -> (r: Option<usize>)
        requires
            self.inv_with(None),
        ensures
            r == self.lookup(hash, key@),
            r matches Some(i) ==> self.holds_key(i, hash, key@) && (i as int) < self.nodes@.len()
                && self.nodes@[i as int].queue != QueueTypeId::NoQueue,
    {
        proof {
            reveal(CacheShard::inv_with);
        }
        let r = self.map.find(hash, &self.nodes, &self.nodes_keys, key);
        proof {
            match r {
                Some(i) => {
                    assert(self.holds_key(i, hash, key@));
                    let j = choose|j: usize| self.holds_key(j, hash, key@);
                    assert(index_entries(self.map).contains_key(i));
                    assert(index_entries(self.map).contains_key(j));
                },
                None => {
                    assert forall|i: usize| !self.holds_key(i, hash, key@) by {
                        if self.holds_key(i, hash, key@) {
                            assert(index_entries(self.map)[i] == hash);
                        }
                    }
                },
            }
        }
        r
    }

    /// Reads `key` under `hash`: counts the access (saturating at 3) and returns a copy
    /// of the value, or `None` when the key is absent or only a ghost entry.
    pub fn get_bytes(&mut self, hash: u64, key: &K) -> (r: Option<Vec<u8>>)
        requires
            old(self).wf(),
        ensures
            final(self).wf(),
            Self::read_outcome(*old(self), *final(self), hash, key@, bytes_view(r)),
    {
        proof {
            reveal(CacheShard::inv_with);
        }
        let found = self.find_slot(hash, key);
        match found {
            None => None,
            Some(idx) => {
                let ghost before = *self;
                if self.nodes[idx].freq < 3 {
                    self.nodes[idx].freq = self.nodes[idx].freq + 1;
                }
                proof {
                    let a = before.nodes@;
                    assert(self.nodes@ == a.update(idx as int, bumped(a[idx as int])));
                    Self::lemma_payload_frame(&before, self, None);
                }
                if self.nodes[idx].data.len() > 0 {
                    Some(self.nodes[idx].data.clone())
                } else {
                    None
                }
            },
        }
    }

    /// `self` is `old` with live slot `i` taken out of its queue and freed.
    pub open spec fn slot_removed(&self, old: &Self, i: usize) -> bool {
        let q = old.nodes_view()[i as int].queue;
        &&& self.index() == old.index().remove(i)
        &&& self.keys_view() == old.keys_view()
        &&& self.nodes_view().len() == old.nodes_view().len()
        &&& forall|k: int|
            0 <= k < old.nodes_view().len() && k != i ==> same_payload(#[trigger] self.nodes_view()[k], old.nodes_view()[k])
                && self.nodes_view()[k].queue == old.nodes_view()[k].queue
        &&& self.nodes_view()[i as int].queue == QueueTypeId::NoQueue
        &&& self.others_kept_but(old, q)
        &&& self.size(q) == old.size(q) - old.nodes_view()[i as int].weight
        &&& self.threshold(q) == old.threshold(q)
        &&& forall|x: usize| #[trigger] self.members(q).contains(x) <==> (old.members(q).contains(x) && x != i)
        &&& exists|j: int|
            0 <= j < old.members(q).len() && old.members(q)[j] == i && self.members(q) == old.members(q).remove(j)
        &&& self.head(q) == (if self.members(q).len() == 0 {
            None
        } else {
            Some(NodeRef { idx: self.members(q)[0] })
        })
    }

    /// Removes `key`, filed under `hash`, from whichever queue holds it, ghost entries
    /// included, and frees its slot. Returns whether the key was there; when it was
    /// not, nothing changes.
    #[verifier::spinoff_prover]
    pub fn delete(&mut self, hash: u64, key: &K) -> (r: bool)
        requires
            old(self).wf(),
        ensures
            final(self).wf(),
            Self::delete_outcome(*old(self), *final(self), hash, key@, r),
    {
        let found = self.find_slot(hash, key);
        match found {
            None => false,
            Some(idx) => {
                let ghost before = *self;
                let node_ref = get_node_ref(idx, &self.nodes);
                let ghost q = self.nodes@[idx as int].queue;
                let ghost j = self.lemma_member_position(idx);
                let _ = self.detach(node_ref, Ghost(j));
                let ghost mid = *self;
                self.release(node_ref);
                proof {
                    self.lemma_head_of_members(q);
                    Self::lemma_delete_outcome(&before, &mid, self, idx, q, j, hash, key@);
                    if before.values_present() {
                        Self::lemma_present_after_detach(&before, &mid, idx, q, j);
                        Self::lemma_present_outside(&mid, self, idx);
                    }
                }
                true
            },
        }
    }

    /// What `delete` leaves behind once the key's slot is detached and released.
    #[verifier::spinoff_prover]
    #[verifier::rlimit(80)]
    proof fn lemma_delete_outcome(a: &Self, b: &Self, c: &Self, idx: usize, q: QueueTypeId, j: int, hash: u64, key: K::V)
        requires
            a.inv_with(None),
            a.holds_key(idx, hash, key),
            (idx as int) < a.nodes@.len(),
            a.nodes@[idx as int].queue == q,
            q != QueueTypeId::NoQueue,
            0 <= j < a.members(q).len(),
            a.members(q)[j] == idx,
            b.detached_from(a, idx, q, j),
            c.map_removed(b, idx),
            c.head(q) == (if c.members(q).len() == 0 {
                None
            } else {
                Some(NodeRef { idx: c.members(q)[0] })
            }),
        ensures
            c.slot_removed(a, idx),
            c.lookup(hash, key) is None,
    {
        reveal(CacheShard::inv_with);
        let s = a.members(q);
        assert(s.no_duplicates());
        assert forall|x: usize| #[trigger] c.members(q).contains(x) <==> (s.contains(x) && x != idx) by {
            assert(c.members(q) == s.remove(j));
            if s.contains(x) && x != idx {
                let i = choose|i: int| 0 <= i < s.len() && s[i] == x;
                assert(i != j);
                if i < j {
                    assert(s.remove(j)[i] == x);
                } else {
                    assert(s.remove(j)[i - 1] == x);
                }
            }
            if c.members(q).contains(x) {
                let i = choose|i: int| 0 <= i < s.remove(j).len() && s.remove(j)[i] == x;
                let k = if i < j { i } else { i + 1 };
                assert(s.remove(j)[i] == s[k]);
                assert(k != j);
            }
        }
        assert forall|k: int|
            0 <= k < a.nodes@.len() && k != idx implies same_payload(#[trigger] c.nodes@[k], a.nodes@[k])
                && c.nodes@[k].queue == a.nodes@[k].queue by {
            assert(c.nodes@[k] == b.nodes@[k]);
            assert(same_payload(b.nodes@[k], a.nodes@[k]));
        }
        assert(c.index() == a.index().remove(idx));
        assert forall|i: usize| !c.holds_key(i, hash, key) by {
            if c.holds_key(i, hash, key) {
                assert(a.holds_key(i, hash, key));
                assert(a.holds_key(idx, hash, key));
                assert(index_entries(a.map).contains_key(idx));
                assert(index_entries(a.map).contains_key(i));
            }
        }
        assert(c.others_kept_but(a, q));
        assert(c.members(q) == s.remove(j));
    }

    /// Going from `old` to `self` only freed slots or dropped values: no slot joined the
    /// index, and every value still held is the one `old` held.
    closed spec fn evolved_from(&self, old: &Self) -> bool {
        &&& self.nodes_keys == old.nodes_keys
        &&& self.thresholds_of(old)
        &&& self.nodes@.len() == old.nodes@.len()
        &&& forall|k: usize|
            #[trigger] index_entries(self.map).contains_key(k) ==> index_entries(old.map).contains_key(k)
                && self.nodes@[k as int].hash == old.nodes@[k as int].hash && (self.nodes@[k as int].data
                == old.nodes@[k as int].data || self.nodes@[k as int].data@.len() == 0)
    }

    proof fn lemma_evolved_trans(a: &Self, b: &Self, c: &Self)
        requires
            b.evolved_from(a),
            c.evolved_from(b),
        ensures
            c.evolved_from(a),
    {
        assert forall|k: usize| #[trigger] index_entries(c.map).contains_key(k) implies index_entries(a.map).contains_key(k)
            && c.nodes@[k as int].hash == a.nodes@[k as int].hash && (c.nodes@[k as int].data
            == a.nodes@[k as int].data || c.nodes@[k as int].data@.len() == 0) by {
            assert(index_entries(b.map).contains_key(k));
        }
    }

    /// With the invariant, a queue with a positive size has a head: its oldest member.
    proof fn lemma_head_exists(&self, q: QueueTypeId)
        requires
            self.inv_with(None),
            q != QueueTypeId::NoQueue,
            self.size(q) > 0,
        ensures
            self.head(q) is Some,
            self.members(q).len() > 0,
            self.head(q)->0.idx == self.members(q)[0],
            (self.members(q)[0] as int) < self.nodes@.len(),
            self.nodes@[self.members(q)[0] as int].queue == q,
    {
        reveal(CacheShard::inv_with);
        assert(queue_wf(self.nodes@, self.head(q), q, self.members(q)));
        if self.members(q).len() == 0 {
            assert(weight_sum(self.nodes@, self.members(q)) == 0);
        }
    }

    /// Counters never exceed 3.
    proof fn lemma_freq_bound(&self, d: Option<usize>, k: usize)
        requires
            self.inv_with(d),
            (k as int) < self.nodes@.len(),
        ensures
            self.nodes@[k as int].freq <= 3,
    {
        reveal(CacheShard::inv_with);
    }

    /// Every member of Small and Main holds a value.
    pub open spec fn values_present(&self) -> bool {
        &&& forall|i: int|
            0 <= i < self.members(QueueTypeId::Small).len() ==> (#[trigger] self.nodes_view()[self.members(
                QueueTypeId::Small,
            )[i] as int]).data@.len() > 0
        &&& forall|i: int|
            0 <= i < self.members(QueueTypeId::Main).len() ==> (#[trigger] self.nodes_view()[self.members(
                QueueTypeId::Main,
            )[i] as int]).data@.len() > 0
    }

    proof fn lemma_present_after_detach(a: &Self, b: &Self, idx: usize, q: QueueTypeId, j: int)
        requires
            a.values_present(),
            b.detached_from(a, idx, q, j),
            0 <= j < a.members(q).len(),
            a.inv_with(None),
        ensures
            b.values_present(),
    {
        reveal(CacheShard::inv_with);
        assert forall|i: int| 0 <= i < b.members(QueueTypeId::Small).len() implies (#[trigger] b.nodes_view()[b.members(QueueTypeId::Small)[i] as int]).data@.len() > 0 by {
            let x = b.members(QueueTypeId::Small)[i];
            let k = if q == QueueTypeId::Small && i >= j { i + 1 } else { i };
            assert(x == a.members(QueueTypeId::Small)[k]);
            assert(same_payload(b.nodes@[x as int], a.nodes@[x as int]));
            assert(a.nodes_view()[a.members(QueueTypeId::Small)[k] as int].data@.len() > 0);
        }
        assert forall|i: int| 0 <= i < b.members(QueueTypeId::Main).len() implies (#[trigger] b.nodes_view()[b.members(QueueTypeId::Main)[i] as int]).data@.len() > 0 by {
            let x = b.members(QueueTypeId::Main)[i];
            let k = if q == QueueTypeId::Main && i >= j { i + 1 } else { i };
            assert(x == a.members(QueueTypeId::Main)[k]);
            assert(same_payload(b.nodes@[x as int], a.nodes@[x as int]));
            assert(a.nodes_view()[a.members(QueueTypeId::Main)[k] as int].data@.len() > 0);
        }
    }

    proof fn lemma_present_after_attach(a: &Self, b: &Self, idx: usize, q: QueueTypeId)
        requires
            a.values_present(),
            b.attached_to(a, idx, q),
            a.inv_with(Some(idx)),
            q == QueueTypeId::Small || q == QueueTypeId::Main ==> a.nodes@[idx as int].data@.len() > 0,
        ensures
            b.values_present(),
    {
        reveal(CacheShard::inv_with);
        assert forall|i: int| 0 <= i < b.members(QueueTypeId::Small).len() implies (#[trigger] b.nodes_view()[b.members(QueueTypeId::Small)[i] as int]).data@.len() > 0 by {
            let x = b.members(QueueTypeId::Small)[i];
            if q == QueueTypeId::Small && i == a.members(QueueTypeId::Small).len() {
                assert(x == idx);
            } else {
                assert(x == a.members(QueueTypeId::Small)[i]);
                assert(a.nodes_view()[a.members(QueueTypeId::Small)[i] as int].data@.len() > 0);
            }
            assert(same_payload(b.nodes@[x as int], a.nodes@[x as int]));
        }
        assert forall|i: int| 0 <= i < b.members(QueueTypeId::Main).len() implies (#[trigger] b.nodes_view()[b.members(QueueTypeId::Main)[i] as int]).data@.len() > 0 by {
            let x = b.members(QueueTypeId::Main)[i];
            if q == QueueTypeId::Main && i == a.members(QueueTypeId::Main).len() {
                assert(x == idx);
            } else {
                assert(x == a.members(QueueTypeId::Main)[i]);
                assert(a.nodes_view()[a.members(QueueTypeId::Main)[i] as int].data@.len() > 0);
            }
            assert(same_payload(b.nodes@[x as int], a.nodes@[x as int]));
        }
    }

    /// Changing only a slot outside every queue keeps every member's value.
    proof fn lemma_present_outside(a: &Self, b: &Self, idx: usize)
        requires
            a.values_present(),
            a.inv_with(Some(idx)),
            b.small_members == a.small_members,
            b.main_members == a.main_members,
            b.nodes@.len() == a.nodes@.len(),
            forall|k: int| 0 <= k < a.nodes@.len() && k != idx ==> #[trigger] b.nodes@[k] == a.nodes@[k],
        ensures
            b.values_present(),
    {
        reveal(CacheShard::inv_with);
        assert forall|i: int| 0 <= i < b.members(QueueTypeId::Small).len() implies (#[trigger] b.nodes_view()[b.members(QueueTypeId::Small)[i] as int]).data@.len() > 0 by {
            let x = a.members(QueueTypeId::Small)[i];
            assert(a.nodes@[x as int].queue == QueueTypeId::Small);
            assert(a.nodes_view()[a.members(QueueTypeId::Small)[i] as int].data@.len() > 0);
        }
        assert forall|i: int| 0 <= i < b.members(QueueTypeId::Main).len() implies (#[trigger] b.nodes_view()[b.members(QueueTypeId::Main)[i] as int]).data@.len() > 0 by {
            let x = a.members(QueueTypeId::Main)[i];
            assert(a.nodes@[x as int].queue == QueueTypeId::Main);
            assert(a.nodes_view()[a.members(QueueTypeId::Main)[i] as int].data@.len() > 0);
        }
    }

    /// Sets the counter of the slot `idx` that is out of its queue.
    fn set_detached_freq(&mut self, idx: usize, f: u8)
        requires
            old(self).inv_with(Some(idx)),
            f <= 3,
        ensures
            final(self).inv_with(Some(idx)),
            final(self).same_fields_but_nodes(old(self)),
            final(self).nodes@ == old(self).nodes@.update(idx as int, Node { freq: f, ..old(self).nodes@[idx as int] }),
            final(self).evolved_from(old(self)),
    {
        proof {
            reveal(CacheShard::inv_with);
        }
        let ghost before = *self;
        self.nodes[idx].freq = f;
        proof {
            Self::lemma_payload_frame(&before, self, Some(idx));
        }
    }

    /// Drops the value of the slot `idx` that is out of its queue.
    fn clear_detached_data(&mut self, idx: usize)
        requires
            old(self).inv_with(Some(idx)),
        ensures
            final(self).inv_with(Some(idx)),
            final(self).same_fields_but_nodes(old(self)),
            final(self).nodes@.len() == old(self).nodes@.len(),
            final(self).nodes@[idx as int].data@.len() == 0,
            same_payload(final(self).nodes@[idx as int], Node { data: final(self).nodes@[idx as int].data, ..old(self).nodes@[idx as int] }),
            final(self).nodes@[idx as int].queue == old(self).nodes@[idx as int].queue,
            forall|k: int| 0 <= k < old(self).nodes@.len() && k != idx ==> #[trigger] final(self).nodes@[k] == old(self).nodes@[k],
            final(self).evolved_from(old(self)),
    {
        proof {
            reveal(CacheShard::inv_with);
        }
        let ghost before = *self;
        self.nodes[idx].data = Vec::new();
        proof {
            Self::lemma_payload_frame(&before, self, Some(idx));
        }
    }

    /// Puts a new value and weight into the slot `idx` that is out of its queue, with its
    /// counter cleared.
    fn refill_detached(&mut self, idx: usize, data_size: u64, data: Vec<u8>)
        requires
            old(self).inv_with(Some(idx)),
            old(self).small_size + old(self).main_size + old(self).ghost_size + data_size <= u64::MAX,
        ensures
            final(self).inv_with(Some(idx)),
            final(self).same_fields_but_nodes(old(self)),
            final(self).nodes@ == old(self).nodes@.update(
                idx as int,
                Node { data: data, weight: data_size, freq: 0, ..old(self).nodes@[idx as int] },
            ),
    {
        proof {
            reveal(CacheShard::inv_with);
        }
        let ghost before = *self;
        self.nodes[idx].data = data;
        self.nodes[idx].weight = data_size;
        self.nodes[idx].freq = 0;
        proof {
            Self::lemma_payload_frame(&before, self, Some(idx));
        }
    }

    /// Slot `n` is the youngest member of Small, unread, of weight `w`.
    closed spec fn youngest_unread_small(&self, n: usize, w: u64) -> bool {
        &&& self.small_members@.len() > 0
        &&& self.small_members@.last() == n
        &&& self.nodes@[n as int].freq == 0
        &&& self.nodes@[n as int].weight == w
    }

    /// Slot `n` is the youngest member of Ghost, of weight `w`, and filed in the index.
    closed spec fn youngest_ghost(&self, n: usize, w: u64) -> bool {
        &&& self.ghost_members@.len() > 0
        &&& self.ghost_members@.last() == n
        &&& self.nodes@[n as int].data@.len() == 0
        &&& self.nodes@[n as int].weight == w
        &&& index_entries(self.map).contains_key(n)
    }

    /// A queue's size is at least the weight of its youngest member.
    proof fn lemma_size_covers_youngest(&self, q: QueueTypeId)
        requires
            self.inv_with(None),
            q != QueueTypeId::NoQueue,
            self.members(q).len() > 0,
        ensures
            self.size(q) >= self.nodes@[self.members(q).last() as int].weight,
    {
        reveal(CacheShard::inv_with);
        let s = self.members(q);
        lemma_tally_remove(self.nodes@, s, s.len() - 1, Tally::Weight);
        lemma_tally_nonneg(self.nodes@, s.remove(s.len() - 1), Tally::Weight);
    }

    /// A member that is both the oldest and the youngest is the only one.
    proof fn lemma_alone_in_queue(&self, q: QueueTypeId)
        requires
            self.inv_with(None),
            q != QueueTypeId::NoQueue,
            self.members(q).len() > 0,
            self.members(q)[0] == self.members(q).last(),
        ensures
            self.members(q).len() == 1,
    {
        reveal(CacheShard::inv_with);
        assert(queue_wf(self.nodes@, self.head(q), q, self.members(q)));
    }

    /// A queue with one member has that member's weight as its size.
    proof fn lemma_size_of_single(&self, q: QueueTypeId)
        requires
            self.inv_with(None),
            q != QueueTypeId::NoQueue,
            self.members(q).len() == 1,
        ensures
            self.size(q) == self.nodes@[self.members(q)[0] as int].weight,
    {
        reveal(CacheShard::inv_with);
        let s = self.members(q);
        assert(s.drop_last() =~= Seq::<usize>::empty());
        assert(tally(self.nodes@, s.drop_last(), Tally::Weight) == 0);
        assert(weight_sum(self.nodes@, s) == tally_of(self.nodes@[s[0] as int], Tally::Weight));
        if q == QueueTypeId::Small {
            assert(self.size(q) == weight_sum(self.nodes@, self.small_members@));
        } else if q == QueueTypeId::Main {
            assert(self.size(q) == weight_sum(self.nodes@, self.main_members@));
        } else {
            assert(self.size(q) == weight_sum(self.nodes@, self.ghost_members@));
        }
    }

    /// An eviction step that does not take slot `n` keeps it as Small's youngest unread
    /// member with its value.
    proof fn lemma_keep_youngest_small(q: QueueTypeId, a: &Self, b: &Self, n: usize, w: u64)
        requires
            a.inv_with(None),
            a.youngest_unread_small(n, w),
            Self::evict_step(q, *a, *b),
            q == QueueTypeId::Small ==> a.small_members@[0] != n,
        ensures
            b.youngest_unread_small(n, w),
            b.nodes@[n as int].data == a.nodes@[n as int].data,
    {
        reveal(CacheShard::inv_with);
        let s = a.small_members@;
        assert(a.nodes@[s[s.len() - 1] as int].queue == QueueTypeId::Small);
        assert((n as int) < a.nodes@.len());
        if q == QueueTypeId::Small {
            assert(s.len() >= 2) by {
                if s.len() == 1 {
                    assert(s[0] == s[s.len() - 1]);
                }
            }
            assert(s.drop_first()[s.drop_first().len() - 1] == s[s.len() - 1]);
        } else if q == QueueTypeId::GhostQueue {
            let g = a.ghost_members@;
            assert(a.nodes@[g[0] as int].queue == QueueTypeId::GhostQueue);
        } else {
            let m = a.main_members@;
            assert(a.nodes@[m[0] as int].queue == QueueTypeId::Main);
        }
        assert(same_payload(b.nodes_view()[n as int], a.nodes_view()[n as int]));
    }

    /// One turn of the Small loop is a Small eviction step.
    proof fn lemma_small_step(iter: &Self, mid: &Self, mid2: &Self, b: &Self, idx: usize, promote: bool)
        requires
            iter.inv_with(None),
            iter.small_members@.len() > 0,
            idx == iter.small_members@[0],
            promote == (iter.nodes@[idx as int].freq > 0),
            mid.detached_from(iter, idx, QueueTypeId::Small, 0),
            mid2.same_fields_but_nodes(mid),
            mid2.nodes@.len() == mid.nodes@.len(),
            forall|k: int| 0 <= k < mid.nodes@.len() && k != idx ==> #[trigger] mid2.nodes@[k] == mid.nodes@[k],
            mid2.nodes@[idx as int].freq == 0,
            mid2.nodes@[idx as int].weight == mid.nodes@[idx as int].weight,
            mid2.nodes@[idx as int].hash == mid.nodes@[idx as int].hash,
            mid2.nodes@[idx as int].queue == mid.nodes@[idx as int].queue,
            promote ==> mid2.nodes@[idx as int].data == mid.nodes@[idx as int].data,
            !promote ==> mid2.nodes@[idx as int].data@.len() == 0,
            promote ==> b.attached_to(mid2, idx, QueueTypeId::Main),
            !promote ==> b.attached_to(mid2, idx, QueueTypeId::GhostQueue),
        ensures
            Self::small_step(*iter, *b),
    {
        reveal(CacheShard::inv_with);
        let s = iter.small_members@;
        assert(s.remove(0) =~= s.drop_first());
        assert((idx as int) < iter.nodes@.len());
        assert(same_payload(mid.nodes@[idx as int], iter.nodes@[idx as int]));
        assert(same_payload(b.nodes@[idx as int], mid2.nodes@[idx as int]));
        assert forall|k: int|
            0 <= k < iter.nodes_view().len() && k != idx implies same_payload(#[trigger] b.nodes_view()[k], iter.nodes_view()[k])
                && b.nodes_view()[k].queue == iter.nodes_view()[k].queue by {
            assert(same_payload(mid.nodes@[k], iter.nodes@[k]));
            assert(same_payload(b.nodes@[k], mid2.nodes@[k]));
        }
    }

    /// One turn of the Ghost loop is a Ghost eviction step.
    proof fn lemma_ghost_step(iter: &Self, mid: &Self, mid2: &Self, b: &Self, idx: usize, promote: bool)
        requires
            iter.inv_with(None),
            iter.ghost_members@.len() > 0,
            idx == iter.ghost_members@[0],
            promote == (iter.nodes@[idx as int].freq > 0 && iter.nodes@[idx as int].data@.len() > 0),
            mid.detached_from(iter, idx, QueueTypeId::GhostQueue, 0),
            promote ==> mid2.same_fields_but_nodes(mid),
            promote ==> mid2.nodes@ == mid.nodes@.update(idx as int, Node { freq: 0, ..mid.nodes@[idx as int] }),
            promote ==> b.attached_to(mid2, idx, QueueTypeId::Main),
            !promote ==> b.map_removed(mid, idx),
        ensures
            Self::ghost_step(*iter, *b),
    {
        reveal(CacheShard::inv_with);
        let s = iter.ghost_members@;
        assert(s.remove(0) =~= s.drop_first());
        assert((idx as int) < iter.nodes@.len());
        assert(same_payload(mid.nodes@[idx as int], iter.nodes@[idx as int]));
        if promote {
            assert(same_payload(b.nodes@[idx as int], mid2.nodes@[idx as int]));
            assert forall|k: int|
                0 <= k < iter.nodes_view().len() && k != idx implies same_payload(#[trigger] b.nodes_view()[k], iter.nodes_view()[k])
                    && b.nodes_view()[k].queue == iter.nodes_view()[k].queue by {
                assert(same_payload(mid.nodes@[k], iter.nodes@[k]));
                assert(same_payload(b.nodes@[k], mid2.nodes@[k]));
            }
        } else {
            assert forall|k: int|
                0 <= k < iter.nodes_view().len() && k != idx implies same_payload(#[trigger] b.nodes_view()[k], iter.nodes_view()[k])
                    && b.nodes_view()[k].queue == iter.nodes_view()[k].queue by {
                assert(same_payload(mid.nodes@[k], iter.nodes@[k]));
            }
            assert(b.queue_kept(mid, QueueTypeId::Main));
            assert(b.queue_kept(mid, QueueTypeId::GhostQueue));
            assert(b.queue_kept(mid, QueueTypeId::Small));
        }
    }

    /// One turn of the Main loop is a Main eviction step.
    proof fn lemma_main_step(iter: &Self, mid: &Self, mid2: &Self, b: &Self, idx: usize, promote: bool)
        requires
            iter.inv_with(None),
            iter.main_members@.len() > 0,
            idx == iter.main_members@[0],
            promote == (iter.nodes@[idx as int].freq > 0),
            mid.detached_from(iter, idx, QueueTypeId::Main, 0),
            promote ==> mid2.same_fields_but_nodes(mid),
            promote ==> mid2.nodes@ == mid.nodes@.update(
                idx as int,
                Node { freq: (mid.nodes@[idx as int].freq - 1) as u8, ..mid.nodes@[idx as int] },
            ),
            promote ==> b.attached_to(mid2, idx, QueueTypeId::Main),
            !promote ==> b.map_removed(mid, idx),
        ensures
            Self::main_step(*iter, *b),
    {
        reveal(CacheShard::inv_with);
        let s = iter.main_members@;
        assert(s.remove(0) =~= s.drop_first());
        assert((idx as int) < iter.nodes@.len());
        assert(same_payload(mid.nodes@[idx as int], iter.nodes@[idx as int]));
        if promote {
            assert(same_payload(b.nodes@[idx as int], mid2.nodes@[idx as int]));
            assert forall|k: int|
                0 <= k < iter.nodes_view().len() && k != idx implies same_payload(#[trigger] b.nodes_view()[k], iter.nodes_view()[k])
                    && b.nodes_view()[k].queue == iter.nodes_view()[k].queue by {
                assert(same_payload(mid.nodes@[k], iter.nodes@[k]));
                assert(same_payload(b.nodes@[k], mid2.nodes@[k]));
            }
        } else {
            assert forall|k: int|
                0 <= k < iter.nodes_view().len() && k != idx implies same_payload(#[trigger] b.nodes_view()[k], iter.nodes_view()[k])
                    && b.nodes_view()[k].queue == iter.nodes_view()[k].queue by {
                assert(same_payload(mid.nodes@[k], iter.nodes@[k]));
            }
            assert(b.queue_kept(mid, QueueTypeId::Main));
            assert(b.queue_kept(mid, QueueTypeId::GhostQueue));
            assert(b.queue_kept(mid, QueueTypeId::Small));
        }
    }

    /// A trace that ends in `a` and gets one more step to `b`.
    proof fn lemma_trace_extend(q: QueueTypeId, t: Seq<Self>, start: Self, a: Self, b: Self)
        requires
            t.len() > 0,
            t[0] == start,
            t[t.len() - 1] == a,
            forall|i: int|
                0 <= i < t.len() - 1 ==> (#[trigger] t[i]).size(q) > t[i].threshold(q) && Self::evict_step(q, t[i], t[i + 1]),
            a.size(q) > a.threshold(q),
            Self::evict_step(q, a, b),
        ensures
            ({
                let u = t.push(b);
                &&& u.len() > 0
                &&& u[0] == start
                &&& u[u.len() - 1] == b
                &&& forall|i: int|
                    0 <= i < u.len() - 1 ==> (#[trigger] u[i]).size(q) > u[i].threshold(q) && Self::evict_step(q, u[i], u[i + 1])
            }),
    {
        let u = t.push(b);
        assert(u[u.len() - 1] == b);
        assert(u[0] == start);
        assert forall|i: int| 0 <= i < u.len() - 1 implies (#[trigger] u[i]).size(q) > u[i].threshold(q) && Self::evict_step(q, u[i], u[i + 1]) by {
            if i < t.len() - 1 {
                assert(u[i] == t[i]);
                assert(u[i + 1] == t[i + 1]);
                assert(t[i].size(q) > t[i].threshold(q) && Self::evict_step(q, t[i], t[i + 1]));
            } else {
                assert(u[i] == a);
                assert(u[i + 1] == b);
            }
        }
    }

    /// Moves the oldest entries out of Small while it is over its threshold: to Main,
    /// with the counter cleared, when read since admission; to Ghost, without the value,
    /// otherwise.
    fn evict_small_if_needed(&mut self, Ghost(n): Ghost<usize>)
        requires
            old(self).inv_with(None),
        ensures
            old(self).youngest_unread_small(n, old(self).nodes@[n as int].weight) && old(self).nodes@[n as int].weight
                > old(self).small_threshold ==> final(self).small_members@.len() == 0 && final(self).youngest_ghost(
                n,
                old(self).nodes@[n as int].weight,
            ),
            final(self).inv_with(None),
            final(self).small_size <= final(self).small_threshold,
            final(self).evolved_from(old(self)),
            old(self).small_size <= old(self).small_threshold ==> *final(self) == *old(self),
            old(self).values_present() ==> final(self).values_present(),
            Self::cascade(QueueTypeId::Small, *old(self), *final(self)),
            old(self).youngest_unread_small(n, old(self).nodes@[n as int].weight) && old(self).nodes@[n as int].weight
                <= old(self).small_threshold ==> final(self).youngest_unread_small(n, old(self).nodes@[n as int].weight)
                && final(self).nodes@[n as int].data == old(self).nodes@[n as int].data,
    {
        let ghost start = *self;
        let ghost mut trace: Seq<Self> = seq![*self];
        let ghost w0 = self.nodes@[n as int].weight;
        let ghost keeping = start.youngest_unread_small(n, w0) && w0 <= start.small_threshold;
        let ghost following = start.youngest_unread_small(n, w0) && w0 > start.small_threshold;
        while self.small_size > self.small_threshold
            invariant
                self.inv_with(None),
                self.evolved_from(&start),
                start.values_present() ==> self.values_present(),
                following ==> (self.youngest_unread_small(n, w0) || (self.small_members@.len() == 0
                    && self.youngest_ghost(n, w0))),
                following ==> w0 > self.small_threshold,
                keeping ==> self.youngest_unread_small(n, w0) && self.nodes@[n as int].data == start.nodes@[n as int].data
                    && w0 <= self.small_threshold,
                start.small_size <= start.small_threshold ==> *self == start,
                trace.len() > 0,
                trace[0] == start,
                trace[trace.len() - 1] == *self,
                forall|i: int|
                    0 <= i < trace.len() - 1 ==> (#[trigger] trace[i]).size(QueueTypeId::Small) > trace[i].threshold(
                        QueueTypeId::Small,
                    ) && Self::evict_step(QueueTypeId::Small, trace[i], trace[i + 1]),
            decreases self.small_members@.len(),
        {
            let ghost iter = *self;
            proof {
                self.lemma_head_exists(QueueTypeId::Small);
                if following && self.youngest_unread_small(n, w0) && self.small_members@[0] == n {
                    self.lemma_alone_in_queue(QueueTypeId::Small);
                }
                if keeping && self.small_members@[0] == n {
                    self.lemma_alone_in_queue(QueueTypeId::Small);
                    self.lemma_size_of_single(QueueTypeId::Small);
                }
            }
            let head = self.small_head.unwrap();
            let idx = head.idx;
            let _ = self.detach(head, Ghost(0));
            let ghost mid = *self;
            let promote = self.nodes[idx].freq > 0;
            if promote {
                self.set_detached_freq(idx, 0);
            } else {
                self.clear_detached_data(idx);
            }
            let ghost mid2 = *self;
            proof {
                if iter.values_present() {
                    Self::lemma_present_after_detach(&iter, &mid, idx, QueueTypeId::Small, 0);
                    Self::lemma_present_outside(&mid, &mid2, idx);
                }
            }
            if promote {
                self.attach(head, QueueTypeId::Main);
                proof {
                    if iter.values_present() {
                        assert(iter.nodes_view()[iter.members(QueueTypeId::Small)[0] as int].data@.len() > 0);
                        assert(same_payload(mid.nodes@[idx as int], iter.nodes@[idx as int]));
                        Self::lemma_present_after_attach(&mid2, self, idx, QueueTypeId::Main);
                    }
                }
            } else {
                self.attach(head, QueueTypeId::GhostQueue);
                proof {
                    if iter.values_present() {
                        Self::lemma_present_after_attach(&mid2, self, idx, QueueTypeId::GhostQueue);
                    }
                }
            }
            proof {
                Self::lemma_evolved_trans(&iter, &mid, &mid2);
                Self::lemma_evolved_trans(&iter, &mid2, self);
                Self::lemma_evolved_trans(&start, &iter, self);
                if following {
                    Self::lemma_track_small_step(&iter, &mid, &mid2, self, idx, n, w0);
                }
                Self::lemma_small_step(&iter, &mid, &mid2, self, idx, promote);
                if keeping {
                    Self::lemma_keep_youngest_small(QueueTypeId::Small, &iter, self, n, w0);
                }
                Self::lemma_trace_extend(QueueTypeId::Small, trace, start, iter, *self);
                trace = trace.push(*self);
            }
        }
        proof {
            assert(Self::cascade_trace(QueueTypeId::Small, trace, start, *self));
        }
        proof {
            if following && self.youngest_unread_small(n, w0) {
                self.lemma_size_covers_youngest(QueueTypeId::Small);
            }
        }
    }

    /// One turn of the Small loop keeps track of the youngest unread slot `n`.
    proof fn lemma_track_small_step(iter: &Self, mid: &Self, mid2: &Self, b: &Self, idx: usize, n: usize, w0: u64)
        requires
            iter.inv_with(None),
            iter.small_members@.len() > 0,
            idx == iter.small_members@[0],
            iter.youngest_unread_small(n, w0) || (iter.small_members@.len() == 0 && iter.youngest_ghost(n, w0)),
            idx == n ==> iter.small_members@.len() == 1,
            mid.detached_from(iter, idx, QueueTypeId::Small, 0),
            mid2.same_fields_but_nodes(mid),
            mid2.nodes@.len() == mid.nodes@.len(),
            forall|k: int| 0 <= k < mid.nodes@.len() && k != idx ==> #[trigger] mid2.nodes@[k] == mid.nodes@[k],
            mid2.nodes@[idx as int].weight == mid.nodes@[idx as int].weight,
            mid.nodes@[idx as int].freq == 0 ==> mid2.nodes@[idx as int].data@.len() == 0,
            b.attached_to(mid2, idx, QueueTypeId::Main) || b.attached_to(mid2, idx, QueueTypeId::GhostQueue),
            mid.nodes@[idx as int].freq > 0 ==> b.attached_to(mid2, idx, QueueTypeId::Main),
            mid.nodes@[idx as int].freq == 0 ==> b.attached_to(mid2, idx, QueueTypeId::GhostQueue),
        ensures
            b.youngest_unread_small(n, w0) || (b.small_members@.len() == 0 && b.youngest_ghost(n, w0)),
    {
        reveal(CacheShard::inv_with);
        let s = iter.small_members@;
        assert(iter.youngest_unread_small(n, w0));
        assert((n as int) < iter.nodes@.len());
        if idx != n {
            assert(s.len() >= 2);
            assert(mid.small_members@ == s.remove(0));
            assert(s.remove(0).last() == s.last());
            assert(same_payload(mid.nodes@[n as int], iter.nodes@[n as int]));
            assert(same_payload(b.nodes@[n as int], mid2.nodes@[n as int]));
            assert(b.small_members@ == mid2.small_members@);
        } else {
            assert(mid.small_members@ == s.remove(0));
            assert(same_payload(mid.nodes@[n as int], iter.nodes@[n as int]));
            assert(b.attached_to(mid2, idx, QueueTypeId::GhostQueue));
            assert(b.ghost_members@ == mid2.ghost_members@.push(n));
            assert(same_payload(b.nodes@[n as int], mid2.nodes@[n as int]));
            assert(index_entries(iter.map).contains_key(n));
        }
    }

    /// Frees the oldest Ghost entries while Ghost is over its threshold, unless one was
    /// read and holds a value again, which moves to Main with its counter cleared.
    fn evict_ghost_if_needed(&mut self, Ghost(n): Ghost<usize>)
        requires
            old(self).inv_with(None),
        ensures
            final(self).inv_with(None),
            final(self).ghost_size <= final(self).ghost_threshold,
            final(self).small_size == old(self).small_size,
            final(self).small_members == old(self).small_members,
            old(self).youngest_ghost(n, old(self).nodes@[n as int].weight) ==> {
                let w = old(self).nodes@[n as int].weight;
                &&& (w <= old(self).ghost_threshold ==> final(self).youngest_ghost(n, w))
                &&& (w > old(self).ghost_threshold ==> final(self).ghost_members@.len() == 0
                    && !index_entries(final(self).map).contains_key(n))
            },
            final(self).evolved_from(old(self)),
            old(self).ghost_size <= old(self).ghost_threshold ==> *final(self) == *old(self),
            old(self).values_present() ==> final(self).values_present(),
            Self::cascade(QueueTypeId::GhostQueue, *old(self), *final(self)),
            old(self).youngest_unread_small(n, old(self).nodes@[n as int].weight) ==> final(self).youngest_unread_small(
                n,
                old(self).nodes@[n as int].weight,
            ) && final(self).nodes@[n as int].data == old(self).nodes@[n as int].data,
    {
        let ghost start = *self;
        let ghost mut trace: Seq<Self> = seq![*self];
        let ghost w0 = self.nodes@[n as int].weight;
        let ghost following = start.youngest_ghost(n, w0);
        while self.ghost_size > self.ghost_threshold
            invariant
                self.inv_with(None),
                self.evolved_from(&start),
                start.values_present() ==> self.values_present(),
                self.small_size == start.small_size,
                self.small_members == start.small_members,
                self.ghost_threshold == start.ghost_threshold,
                following ==> (self.youngest_ghost(n, w0) || (self.ghost_members@.len() == 0
                    && !index_entries(self.map).contains_key(n) && w0 > self.ghost_threshold)),
                trace.len() > 0,
                trace[0] == start,
                trace[trace.len() - 1] == *self,
                forall|i: int|
                    0 <= i < trace.len() - 1 ==> (#[trigger] trace[i]).size(QueueTypeId::GhostQueue) > trace[i].threshold(
                        QueueTypeId::GhostQueue,
                    ) && Self::evict_step(QueueTypeId::GhostQueue, trace[i], trace[i + 1]),
                start.youngest_unread_small(n, w0) ==> self.youngest_unread_small(n, w0) && self.nodes@[n as int].data
                    == start.nodes@[n as int].data,
                start.ghost_size <= start.ghost_threshold ==> *self == start,
            decreases self.ghost_members@.len(),
        {
            let ghost iter = *self;
            proof {
                self.lemma_head_exists(QueueTypeId::GhostQueue);
                if following && self.youngest_ghost(n, w0) && self.ghost_members@[0] == n {
                    self.lemma_alone_in_queue(QueueTypeId::GhostQueue);
                    self.lemma_size_covers_youngest(QueueTypeId::GhostQueue);
                    reveal(CacheShard::inv_with);
                    assert(self.ghost_members@ =~= seq![n]);
                    assert(self.ghost_members@.drop_last() =~= Seq::<usize>::empty());
                }
            }
            let head = self.ghost_head.unwrap();
            let idx = head.idx;
            let _ = self.detach(head, Ghost(0));
            let ghost mid = *self;
            proof {
                if iter.values_present() {
                    Self::lemma_present_after_detach(&iter, &mid, idx, QueueTypeId::GhostQueue, 0);
                }
            }
            let promote = self.nodes[idx].freq > 0 && self.nodes[idx].data.len() > 0;
            let ghost mut mid2 = *self;
            if promote {
                self.set_detached_freq(idx, 0);
                proof {
                    mid2 = *self;
                }
                self.attach(head, QueueTypeId::Main);
                proof {
                    Self::lemma_evolved_trans(&mid, &mid2, self);
                    if iter.values_present() {
                        Self::lemma_present_outside(&mid, &mid2, idx);
                        Self::lemma_present_after_attach(&mid2, self, idx, QueueTypeId::Main);
                    }
                }
            } else {
                self.release(head);
                proof {
                    if iter.values_present() {
                        Self::lemma_present_outside(&mid, self, idx);
                    }
                }
            }
            proof {
                Self::lemma_evolved_trans(&iter, &mid, self);
                Self::lemma_evolved_trans(&start, &iter, self);
                if following && iter.youngest_ghost(n, w0) {
                    Self::lemma_track_ghost_step(&iter, &mid, self, idx, n, w0);
                }
                assert(same_payload(mid.nodes@[idx as int], iter.nodes@[idx as int]));
                Self::lemma_ghost_step(&iter, &mid, &mid2, self, idx, promote);
                if start.youngest_unread_small(n, w0) {
                    Self::lemma_keep_youngest_small(QueueTypeId::GhostQueue, &iter, self, n, w0);
                }
                Self::lemma_trace_extend(QueueTypeId::GhostQueue, trace, start, iter, *self);
                trace = trace.push(*self);
            }
        }
        proof {
            assert(Self::cascade_trace(QueueTypeId::GhostQueue, trace, start, *self));
        }
        proof {
            if following && self.youngest_ghost(n, w0) {
                self.lemma_size_covers_youngest(QueueTypeId::GhostQueue);
            }
        }
    }

    /// One turn of the Ghost loop keeps track of the youngest ghost slot `n`.
    proof fn lemma_track_ghost_step(iter: &Self, mid: &Self, b: &Self, idx: usize, n: usize, w0: u64)
        requires
            iter.inv_with(None),
            iter.youngest_ghost(n, w0),
            iter.ghost_members@.len() > 0,
            idx == iter.ghost_members@[0],
            idx == n ==> iter.ghost_members@.len() == 1 && w0 > iter.ghost_threshold,
            mid.detached_from(iter, idx, QueueTypeId::GhostQueue, 0),
            idx == n ==> b.map_removed(mid, idx),
            b.ghost_members == mid.ghost_members,
            b.small_members == mid.small_members,
            b.ghost_threshold == mid.ghost_threshold,
            b.nodes@.len() == mid.nodes@.len(),
            forall|k: int| 0 <= k < mid.nodes@.len() && k != idx ==> same_payload(#[trigger] b.nodes@[k], mid.nodes@[k]),
            forall|k: usize| k != idx ==> (#[trigger] index_entries(b.map).contains_key(k) <==> index_entries(mid.map).contains_key(k)),
        ensures
            b.youngest_ghost(n, w0) || (b.ghost_members@.len() == 0 && !index_entries(b.map).contains_key(n) && w0
                > b.ghost_threshold),
    {
        reveal(CacheShard::inv_with);
        let s = iter.ghost_members@;
        assert((n as int) < iter.nodes@.len());
        assert(mid.ghost_members@ == s.remove(0));
        if idx != n {
            assert(s.len() >= 2);
            assert(s.remove(0).last() == s.last());
            assert(same_payload(mid.nodes@[n as int], iter.nodes@[n as int]));
            assert(same_payload(b.nodes@[n as int], mid.nodes@[n as int]));
            assert(index_entries(b.map).contains_key(n));
        } else {
            assert(s.remove(0).len() == 0);
        }
    }

    /// Takes the oldest Main entries while Main is over its threshold: one that was read
    /// gives up one count and goes back as the youngest; one that was not is freed.
    fn evict_main_if_needed(&mut self, Ghost(n): Ghost<usize>)
        requires
            old(self).inv_with(None),
        ensures
            final(self).inv_with(None),
            final(self).main_size <= final(self).main_threshold,
            final(self).small_size == old(self).small_size,
            final(self).ghost_size == old(self).ghost_size,
            final(self).small_members == old(self).small_members,
            final(self).ghost_members == old(self).ghost_members,
            old(self).youngest_ghost(n, old(self).nodes@[n as int].weight) ==> final(self).youngest_ghost(
                n,
                old(self).nodes@[n as int].weight,
            ),
            final(self).evolved_from(old(self)),
            old(self).main_size <= old(self).main_threshold ==> *final(self) == *old(self),
            old(self).values_present() ==> final(self).values_present(),
            Self::cascade(QueueTypeId::Main, *old(self), *final(self)),
            old(self).youngest_unread_small(n, old(self).nodes@[n as int].weight) ==> final(self).youngest_unread_small(
                n,
                old(self).nodes@[n as int].weight,
            ) && final(self).nodes@[n as int].data == old(self).nodes@[n as int].data,
    {
        let ghost start = *self;
        let ghost mut trace: Seq<Self> = seq![*self];
        while self.main_size > self.main_threshold
            invariant
                self.inv_with(None),
                self.evolved_from(&start),
                start.values_present() ==> self.values_present(),
                self.small_size == start.small_size,
                self.ghost_size == start.ghost_size,
                self.small_members == start.small_members,
                self.ghost_members == start.ghost_members,
                start.youngest_ghost(n, start.nodes@[n as int].weight) ==> self.youngest_ghost(
                    n,
                    start.nodes@[n as int].weight,
                ),
                start.main_size <= start.main_threshold ==> *self == start,
                trace.len() > 0,
                trace[0] == start,
                trace[trace.len() - 1] == *self,
                forall|i: int|
                    0 <= i < trace.len() - 1 ==> (#[trigger] trace[i]).size(QueueTypeId::Main) > trace[i].threshold(
                        QueueTypeId::Main,
                    ) && Self::evict_step(QueueTypeId::Main, trace[i], trace[i + 1]),
                start.youngest_unread_small(n, start.nodes@[n as int].weight) ==> self.youngest_unread_small(
                    n,
                    start.nodes@[n as int].weight,
                ) && self.nodes@[n as int].data == start.nodes@[n as int].data,
            decreases 4 * self.main_members@.len() + tally(self.nodes@, self.main_members@, Tally::Freq),
        {
            let ghost iter = *self;
            let ghost s = self.main_members@;
            let ghost followed = iter.youngest_ghost(n, start.nodes@[n as int].weight);
            proof {
                if followed {
                    reveal(CacheShard::inv_with);
                    assert(iter.ghost_members@[iter.ghost_members@.len() - 1] == n);
                    assert(iter.nodes@[n as int].queue == QueueTypeId::GhostQueue);
                    assert(!s.contains(n)) by {
                        if s.contains(n) {
                            let i = choose|i: int| 0 <= i < s.len() && s[i] == n;
                            assert(iter.nodes@[s[i] as int].queue == QueueTypeId::Main);
                        }
                    }
                }
            }
            proof {
                self.lemma_head_exists(QueueTypeId::Main);
                lemma_tally_remove(self.nodes@, s, 0, Tally::Freq);
                lemma_tally_nonneg(self.nodes@, s, Tally::Freq);
            }
            let head = self.main_head.unwrap();
            let idx = head.idx;
            let _ = self.detach(head, Ghost(0));
            let ghost mid = *self;
            proof {
                reveal(CacheShard::inv_with);
                assert(queue_wf(iter.nodes@, iter.main_head, QueueTypeId::Main, s));
                assert forall|i: int| 0 <= i < s.remove(0).len() implies (#[trigger] mid.nodes@[s.remove(0)[i] as int]).freq == iter.nodes@[s.remove(0)[i] as int].freq by {
                    assert(s.remove(0)[i] == s[i + 1]);
                    assert(same_payload(mid.nodes@[s.remove(0)[i] as int], iter.nodes@[s.remove(0)[i] as int]));
                }
                Self::lemma_freq_frame(iter.nodes@, mid.nodes@, s.remove(0));
                self.lemma_freq_bound(Some(idx), idx);
            }
            let f = self.nodes[idx].freq;
            let ghost mut mid2 = *self;
            if f > 0 {
                self.set_detached_freq(idx, f - 1);
                proof {
                    mid2 = *self;
                }
                proof {
                    if iter.values_present() {
                        Self::lemma_present_after_detach(&iter, &mid, idx, QueueTypeId::Main, 0);
                        Self::lemma_present_outside(&mid, &mid2, idx);
                        assert(iter.nodes_view()[iter.members(QueueTypeId::Main)[0] as int].data@.len() > 0);
                        assert(same_payload(mid.nodes@[idx as int], iter.nodes@[idx as int]));
                    }
                }
                self.attach(head, QueueTypeId::Main);
                proof {
                    if iter.values_present() {
                        Self::lemma_present_after_attach(&mid2, self, idx, QueueTypeId::Main);
                    }
                }
                proof {
                    reveal(CacheShard::inv_with);
                    assert(!s.remove(0).contains(idx)) by {
                        assert(s.no_duplicates());
                        if s.remove(0).contains(idx) {
                            let i = choose|i: int| 0 <= i < s.remove(0).len() && s.remove(0)[i] == idx;
                            assert(s[i + 1] == s[0]);
                        }
                    }
                    assert forall|i: int| 0 <= i < s.remove(0).len() implies (#[trigger] mid2.nodes@[s.remove(0)[i] as int]).freq == mid.nodes@[s.remove(0)[i] as int].freq by {
                        assert(s.remove(0)[i] != idx);
                    }
                    Self::lemma_freq_frame(mid.nodes@, mid2.nodes@, s.remove(0));
                    assert forall|i: int| 0 <= i < s.remove(0).len() implies (#[trigger] self.nodes@[s.remove(0)[i] as int]).freq == mid2.nodes@[s.remove(0)[i] as int].freq by {
                        assert(same_payload(self.nodes@[s.remove(0)[i] as int], mid2.nodes@[s.remove(0)[i] as int]));
                    }
                    Self::lemma_freq_frame(mid2.nodes@, self.nodes@, s.remove(0));
                    lemma_tally_push(self.nodes@, s.remove(0), idx, Tally::Freq);
                    assert(same_payload(self.nodes@[idx as int], mid2.nodes@[idx as int]));
                    assert(mid.members(QueueTypeId::Main) == s.remove(0));
                    assert(self.main_members@ == s.remove(0).push(idx));
                    assert(self.nodes@[idx as int].freq == f - 1);
                    assert(iter.nodes@[s[0] as int].freq == f);
                    assert(tally(self.nodes@, self.main_members@, Tally::Freq) == tally(iter.nodes@, s, Tally::Freq) - 1);
                    assert(4 * self.main_members@.len() + tally(self.nodes@, self.main_members@, Tally::Freq) < 4 * s.len() + tally(iter.nodes@, s, Tally::Freq));
                    Self::lemma_evolved_trans(&mid, &mid2, self);
                }
            } else {
                self.release(head);
                proof {
                    if iter.values_present() {
                        Self::lemma_present_after_detach(&iter, &mid, idx, QueueTypeId::Main, 0);
                        Self::lemma_present_outside(&mid, self, idx);
                    }
                    reveal(CacheShard::inv_with);
                    lemma_tally_nonneg(iter.nodes@, s.remove(0), Tally::Freq);
                    assert forall|i: int| 0 <= i < s.remove(0).len() implies (#[trigger] self.nodes@[s.remove(0)[i] as int]).freq == mid.nodes@[s.remove(0)[i] as int].freq by {
                        assert(s.remove(0)[i] != idx);
                    }
                    Self::lemma_freq_frame(mid.nodes@, self.nodes@, s.remove(0));
                    assert(mid.members(QueueTypeId::Main) == s.remove(0));
                    assert(self.main_members@ == s.remove(0));
                    assert(iter.nodes@[s[0] as int].freq == 0);
                    assert(tally(self.nodes@, self.main_members@, Tally::Freq) == tally(iter.nodes@, s, Tally::Freq));
                    assert(4 * self.main_members@.len() + tally(self.nodes@, self.main_members@, Tally::Freq) < 4 * s.len() + tally(iter.nodes@, s, Tally::Freq));
                }
            }
            proof {
                Self::lemma_evolved_trans(&iter, &mid, self);
                Self::lemma_evolved_trans(&start, &iter, self);
                if followed {
                    assert(!s.remove(0).push(idx).contains(n)) by {
                        if s.remove(0).push(idx).contains(n) {
                            let i = choose|i: int| 0 <= i < s.remove(0).push(idx).len() && s.remove(0).push(idx)[i] == n;
                            if i < s.remove(0).len() {
                                assert(s[i + 1] == n);
                            }
                        }
                    }
                    assert(self.nodes@[n as int] == iter.nodes@[n as int]);
                    assert(index_entries(self.map).contains_key(n));
                }
                assert(same_payload(mid.nodes@[idx as int], iter.nodes@[idx as int]));
                Self::lemma_main_step(&iter, &mid, &mid2, self, idx, f > 0);
                if start.youngest_unread_small(n, start.nodes@[n as int].weight) {
                    Self::lemma_keep_youngest_small(QueueTypeId::Main, &iter, self, n, start.nodes@[n as int].weight);
                }
                Self::lemma_trace_extend(QueueTypeId::Main, trace, start, iter, *self);
                trace = trace.push(*self);
            }
        }
        proof {
            assert(Self::cascade_trace(QueueTypeId::Main, trace, start, *self));
        }
    }

    /// The counter sum over `s` only reads the members of `s`.
    proof fn lemma_freq_frame(a: Seq<Node>, b: Seq<Node>, s: Seq<usize>)
        requires
            forall|i: int| 0 <= i < s.len() ==> (#[trigger] b[s[i] as int]).freq == a[s[i] as int].freq,
        ensures
            tally(a, s, Tally::Freq) == tally(b, s, Tally::Freq),
    {
        assert forall|i: int| 0 <= i < s.len() implies tally_of(#[trigger] a[s[i] as int], Tally::Freq) == tally_of(b[s[i] as int], Tally::Freq) by {
            assert(b[s[i] as int].freq == a[s[i] as int].freq);
        }
        lemma_tally_frame(a, b, s, Tally::Freq);
    }

    /// At most one live slot holds a key under a hash.
    proof fn lemma_unique_holder(&self, i: usize, hash: u64, key: K::V)
        requires
            self.inv_with(None),
            self.holds_key(i, hash, key),
        ensures
            self.lookup(hash, key) == Some(i),
    {
        reveal(CacheShard::inv_with);
        let j = choose|j: usize| self.holds_key(j, hash, key);
        assert(index_entries(self.map).contains_key(i));
        assert(index_entries(self.map).contains_key(j));
    }

    /// Two shards in which the same slots hold a key agree on where it is.
    proof fn lemma_lookup_transfer(a: &Self, b: &Self, hash: u64, key: K::V)
        requires
            a.inv_with(None),
            b.inv_with(None),
            forall|j: usize| #[trigger] b.holds_key(j, hash, key) <==> a.holds_key(j, hash, key),
        ensures
            b.lookup(hash, key) == a.lookup(hash, key),
    {
        if exists|j: usize| a.holds_key(j, hash, key) {
            let j = choose|j: usize| a.holds_key(j, hash, key);
            a.lemma_unique_holder(j, hash, key);
            assert(b.holds_key(j, hash, key));
            b.lemma_unique_holder(j, hash, key);
        } else {
            assert forall|j: usize| !b.holds_key(j, hash, key) by {
                if b.holds_key(j, hash, key) {
                    assert(a.holds_key(j, hash, key));
                }
            }
        }
    }

    /// Once only values were dropped and slots freed, a key that is still found is found
    /// where it was, with the value it had or none.
    proof fn lemma_lookup_evolved(a: &Self, b: &Self, hash: u64, key: K::V)
        requires
            a.inv_with(None),
            b.inv_with(None),
            b.evolved_from(a),
        ensures
            b.lookup(hash, key) matches Some(j) ==> a.lookup(hash, key) == Some(j),
            b.value_of(hash, key) is Some ==> b.value_of(hash, key) == a.value_of(hash, key),
    {
        reveal(CacheShard::inv_with);
        if let Some(j) = b.lookup(hash, key) {
            assert(b.holds_key(j, hash, key));
            assert(index_entries(a.map).contains_key(j));
            assert(a.holds_key(j, hash, key));
            a.lemma_unique_holder(j, hash, key);
        }
    }

    /// Files a new key under `hash` in a fresh slot, reused from the freelist or appended,
    /// holding `data`, and admits it to Small as its youngest member.
    fn allocate_small(&mut self, hash: u64, key: K, data_size: u64, data: Vec<u8>) -> (r: NodeRef)
        requires
            old(self).inv_with(None),
            old(self).lookup(hash, key@) is None,
            old(self).small_size + old(self).main_size + old(self).ghost_size + data_size <= u64::MAX,
        ensures
            final(self).inv_with(None),
            final(self).holds_key(r.idx, hash, key@),
            final(self).nodes@[r.idx as int].data == data,
            final(self).nodes@[r.idx as int].queue == QueueTypeId::Small,
            final(self).small_size == old(self).small_size + data_size,
            final(self).main_size == old(self).main_size,
            final(self).ghost_size == old(self).ghost_size,
            final(self).thresholds_of(old(self)),
            forall|h2: u64, k2: K::V|
                !(h2 == hash && k2 == key@) ==> #[trigger] final(self).value_of(h2, k2) == old(self).value_of(h2, k2),
            old(self).values_present() && data@.len() > 0 ==> final(self).values_present(),
            final(self).small_members@ == old(self).small_members@.push(r.idx),
            final(self).nodes@[r.idx as int].freq == 0,
            final(self).nodes@[r.idx as int].weight == data_size,
            Self::admitted_new(*old(self), *final(self), hash, key@, data_size, data@),
    {
        let ghost before = *self;
        let n = self.create_node(hash, key, data_size, data);
        let ghost mid = *self;
        proof {
            if before.values_present() && mid.nodes@[n.idx as int].data@.len() > 0 {
                reveal(CacheShard::inv_with);
                assert forall|i: int| 0 <= i < mid.members(QueueTypeId::Small).len() implies (#[trigger] mid.nodes_view()[mid.members(QueueTypeId::Small)[i] as int]).data@.len() > 0 by {
                    let x = before.members(QueueTypeId::Small)[i];
                    assert(before.nodes@[x as int].queue == QueueTypeId::Small);
                    assert(before.nodes_view()[before.members(QueueTypeId::Small)[i] as int].data@.len() > 0);
                }
                assert forall|i: int| 0 <= i < mid.members(QueueTypeId::Main).len() implies (#[trigger] mid.nodes_view()[mid.members(QueueTypeId::Main)[i] as int]).data@.len() > 0 by {
                    let x = before.members(QueueTypeId::Main)[i];
                    assert(before.nodes@[x as int].queue == QueueTypeId::Main);
                    assert(before.nodes_view()[before.members(QueueTypeId::Main)[i] as int].data@.len() > 0);
                }
            }
        }
        self.attach(n, QueueTypeId::Small);
        proof {
            if before.values_present() && mid.nodes@[n.idx as int].data@.len() > 0 {
                Self::lemma_present_after_attach(&mid, self, n.idx, QueueTypeId::Small);
            }
        }
        proof {
            reveal(CacheShard::inv_with);
            assert forall|h2: u64, k2: K::V|
                !(h2 == hash && k2 == key@) implies #[trigger] self.value_of(h2, k2) == before.value_of(h2, k2) by {
                assert forall|j: usize| #[trigger] self.holds_key(j, h2, k2) <==> before.holds_key(j, h2, k2) by {
                    if j != n.idx && (j as int) < before.nodes@.len() {
                        assert(same_payload(self.nodes@[j as int], mid.nodes@[j as int]));
                    }
                }
                Self::lemma_lookup_transfer(&before, self, h2, k2);
                if let Some(j) = before.lookup(h2, k2) {
                    assert(before.holds_key(j, h2, k2));
                    assert(same_payload(self.nodes@[j as int], mid.nodes@[j as int]));
                }
            }
            assert(same_payload(self.nodes@[n.idx as int], mid.nodes@[n.idx as int]));
            assert(self.holds_key(n.idx, hash, key@));
            self.lemma_unique_holder(n.idx, hash, key@);
            assert forall|k: int|
                0 <= k < before.nodes_view().len() && k != n.idx implies same_payload(#[trigger] self.nodes_view()[k], before.nodes_view()[k])
                    && self.nodes_view()[k].queue == before.nodes_view()[k].queue && self.keys_view()[k] == before.keys_view()[k] by {
                assert(same_payload(self.nodes@[k], mid.nodes@[k]));
            }
        }
        n
    }

    /// Fills a slot for a new key and files it in the index; the slot is left out of
    /// every queue.
    #[verifier::spinoff_prover]
    fn create_node(&mut self, hash: u64, key: K, data_size: u64, data: Vec<u8>) -> (r: NodeRef)
        requires
            old(self).inv_with(None),
            old(self).lookup(hash, key@) is None,
            old(self).small_size + old(self).main_size + old(self).ghost_size + data_size <= u64::MAX,
        ensures
            final(self).inv_with(Some(r.idx)),
            (r.idx as int) < final(self).nodes@.len(),
            (r.idx as int) >= old(self).nodes@.len() || old(self).nodes@[r.idx as int].queue == QueueTypeId::NoQueue,
            !index_entries(old(self).map).contains_key(r.idx),
            index_entries(final(self).map) == index_entries(old(self).map).insert(r.idx, hash),
            final(self).nodes@[r.idx as int].data == data,
            final(self).nodes@[r.idx as int].weight == data_size,
            final(self).nodes@[r.idx as int].freq == 0,
            final(self).nodes@[r.idx as int].hash == hash,
            final(self).nodes_keys@[r.idx as int]@ == key@,
            final(self).nodes@.len() >= old(self).nodes@.len(),
            (r.idx as int) < old(self).nodes@.len() ==> final(self).nodes@.len() == old(self).nodes@.len(),
            (r.idx as int) >= old(self).nodes@.len() ==> r.idx == old(self).nodes@.len() && final(self).nodes@.len()
                == old(self).nodes@.len() + 1,
            forall|k: int| 0 <= k < old(self).nodes@.len() && k != r.idx ==> #[trigger] final(self).nodes@[k] == old(self).nodes@[k]
                && final(self).nodes_keys@[k] == old(self).nodes_keys@[k],
            final(self).small_members == old(self).small_members,
            final(self).main_members == old(self).main_members,
            final(self).ghost_members == old(self).ghost_members,
            final(self).small_head == old(self).small_head,
            final(self).main_head == old(self).main_head,
            final(self).ghost_head == old(self).ghost_head,
            final(self).small_size == old(self).small_size,
            final(self).main_size == old(self).main_size,
            final(self).ghost_size == old(self).ghost_size,
            final(self).thresholds_of(old(self)),
    {
        proof {
            reveal(CacheShard::inv_with);
        }
        let ghost before = *self;
        let n: usize;
        if self.freelist.len() > 0 {
            let free_ref = self.freelist.pop().unwrap();
            n = free_ref.idx;
            proof {
                assert(before.freelist@[before.freelist@.len() - 1] == free_ref);
                assert(before.freelist@ =~= self.freelist@.push(free_ref));
                assert(before.nodes@[n as int].queue == QueueTypeId::NoQueue);
            }
            occupy_node(free_ref, &mut self.nodes, data_size, data);
            self.nodes[n].hash = hash;
            self.nodes_keys.set(n, key);
        } else {
            n = self.nodes.len();
            self.nodes.push(
                Node {
                    data,
                    weight: data_size,
                    next: n,
                    prev: n,
                    freq: 0,
                    queue: QueueTypeId::NoQueue,
                    hash,
                },
            );
            self.nodes_keys.push(key);
        }
        proof {
            assert(!index_entries(before.map).contains_key(n));
            assert forall|i: usize|
                #[trigger] index_entries(self.map).contains_key(i) implies (i as int) < self.nodes@.len()
                    && self.nodes@[i as int].hash == index_entries(self.map)[i] by {
                assert(i != n);
            }
        }
        self.map.insert(hash, n, &self.nodes);
        proof {
            Self::lemma_admit_inv(&before, self, n, hash, key@);
        }
        NodeRef { idx: n }
    }

    #[verifier::spinoff_prover]
    proof fn lemma_admit_inv(a: &Self, b: &Self, n: usize, hash: u64, key: K::V)
        requires
            a.inv_with(None),
            a.lookup(hash, key) is None,
            a.small_size + a.main_size + a.ghost_size + b.nodes@[n as int].weight <= u64::MAX,
            (n as int) < b.nodes@.len(),
            b.nodes@.len() == a.nodes@.len() || (b.nodes@.len() == a.nodes@.len() + 1 && n == a.nodes@.len()),
            b.nodes_keys@.len() == b.nodes@.len(),
            forall|k: int| 0 <= k < a.nodes@.len() && k != n ==> #[trigger] b.nodes@[k] == a.nodes@[k]
                && b.nodes_keys@[k] == a.nodes_keys@[k],
            b.nodes@[n as int].queue == QueueTypeId::NoQueue,
            b.nodes@[n as int].hash == hash,
            b.nodes@[n as int].freq == 0,
            b.nodes_keys@[n as int]@ == key,
            (n as int) < a.nodes@.len() ==> a.nodes@[n as int].queue == QueueTypeId::NoQueue && a.freelist@ == b.freelist@.push(NodeRef { idx: n }),
            (n as int) >= a.nodes@.len() ==> b.freelist@ == a.freelist@,
            index_entries(b.map) == index_entries(a.map).insert(n, hash),
            b.small_members == a.small_members,
            b.main_members == a.main_members,
            b.ghost_members == a.ghost_members,
            b.small_head == a.small_head,
            b.main_head == a.main_head,
            b.ghost_head == a.ghost_head,
            b.small_size == a.small_size,
            b.main_size == a.main_size,
            b.ghost_size == a.ghost_size,
        ensures
            b.inv_with(Some(n)),
    {
        reveal(CacheShard::inv_with);
        let an = a.nodes@;
        let bn = b.nodes@;
        assert forall|k: int| 0 <= k < bn.len() implies (#[trigger] bn[k].queue == QueueTypeId::Small <==> (k < an.len() && an[k].queue == QueueTypeId::Small)) by {
            if k != n && k < an.len() {
                assert(bn[k] == an[k]);
            }
        }
        assert forall|k: int| 0 <= k < bn.len() implies (#[trigger] bn[k].queue == QueueTypeId::Main <==> (k < an.len() && an[k].queue == QueueTypeId::Main)) by {
            if k != n && k < an.len() {
                assert(bn[k] == an[k]);
            }
        }
        assert forall|k: int| 0 <= k < bn.len() implies (#[trigger] bn[k].queue == QueueTypeId::GhostQueue <==> (k < an.len() && an[k].queue == QueueTypeId::GhostQueue)) by {
            if k != n && k < an.len() {
                assert(bn[k] == an[k]);
            }
        }
        assert forall|i: int| 0 <= i < a.small_members@.len() implies #[trigger] bn[a.small_members@[i] as int] == an[a.small_members@[i] as int] by {
            assert(an[a.small_members@[i] as int].queue == QueueTypeId::Small);
        }
        assert forall|i: int| 0 <= i < a.main_members@.len() implies #[trigger] bn[a.main_members@[i] as int] == an[a.main_members@[i] as int] by {
            assert(an[a.main_members@[i] as int].queue == QueueTypeId::Main);
        }
        assert forall|i: int| 0 <= i < a.ghost_members@.len() implies #[trigger] bn[a.ghost_members@[i] as int] == an[a.ghost_members@[i] as int] by {
            assert(an[a.ghost_members@[i] as int].queue == QueueTypeId::GhostQueue);
        }
        lemma_queue_kept(an, bn, a.small_head, QueueTypeId::Small, a.small_members@);
        lemma_queue_kept(an, bn, a.main_head, QueueTypeId::Main, a.main_members@);
        lemma_queue_kept(an, bn, a.ghost_head, QueueTypeId::GhostQueue, a.ghost_members@);
        assert forall|k: int| 0 <= k < bn.len() implies (#[trigger] bn[k]).freq <= 3 by {
            if k != n {
                assert(bn[k] == an[k]);
            }
        }
        assert forall|i: int| 0 <= i < b.freelist@.len() implies {
            let k = (#[trigger] b.freelist@[i]).idx;
            &&& (k as int) < bn.len()
            &&& bn[k as int].queue == QueueTypeId::NoQueue
            &&& Some(n) != Some(k)
        } by {
            assert(a.freelist@[i] == b.freelist@[i]);
            let k = b.freelist@[i].idx;
            if (n as int) < an.len() {
                assert(a.freelist@[a.freelist@.len() - 1].idx == n);
                assert(i < a.freelist@.len() - 1);
            }
            assert(k != n);
            assert(bn[k as int] == an[k as int]);
        }
        assert forall|x: int, y: int|
            0 <= x < y < b.freelist@.len() implies (#[trigger] b.freelist@[x]).idx != (#[trigger] b.freelist@[y]).idx by {
            assert(a.freelist@[x] == b.freelist@[x]);
            assert(a.freelist@[y] == b.freelist@[y]);
        }
        assert forall|k: usize|
            (k as int) < bn.len() && #[trigger] bn[k as int].queue == QueueTypeId::NoQueue && Some(n) != Some(k)
                implies exists|i: int| 0 <= i < b.freelist@.len() && b.freelist@[i].idx == k by {
            assert(bn[k as int] == an[k as int]);
            let i = choose|i: int| 0 <= i < a.freelist@.len() && a.freelist@[i].idx == k;
            if (n as int) < an.len() {
                assert(i != a.freelist@.len() - 1);
            }
            assert(b.freelist@[i] == a.freelist@[i]);
        }
        assert forall|k: usize|
            #[trigger] index_entries(b.map).contains_key(k) <==> ((k as int) < bn.len() && (bn[k as int].queue
                != QueueTypeId::NoQueue || Some(n) == Some(k))) by {
            if k != n && (k as int) < an.len() {
                assert(bn[k as int] == an[k as int]);
            }
        }
        assert forall|k: usize| #[trigger] index_entries(b.map).contains_key(k) implies index_entries(b.map)[k] == bn[k as int].hash by {
            if k != n {
                assert(bn[k as int] == an[k as int]);
            }
        }
        assert forall|x: usize, y: usize|
            #[trigger] index_entries(b.map).contains_key(x) && #[trigger] index_entries(b.map).contains_key(y) && x != y implies !(
            bn[x as int].hash == bn[y as int].hash && b.nodes_keys@[x as int]@ == b.nodes_keys@[y as int]@) by {
            if x != n && y != n {
                assert(bn[x as int] == an[x as int]);
                assert(bn[y as int] == an[y as int]);
            } else if x == n {
                assert(bn[y as int] == an[y as int]);
                assert(!a.holds_key(y, hash, key));
            } else {
                assert(bn[x as int] == an[x as int]);
                assert(!a.holds_key(x, hash, key));
            }
        }
        assert forall|i: int| 0 <= i < b.ghost_members@.len() implies (#[trigger] bn[b.ghost_members@[i] as int]).data@.len() == 0 by {
            assert(bn[a.ghost_members@[i] as int] == an[a.ghost_members@[i] as int]);
        }
    }

    /// The recorded size of Small.
    pub fn get_small_size(&self) -> (r: u64)
        ensures
            r == self.size(QueueTypeId::Small),
    {
        self.small_size
    }

    /// The recorded size of Main.
    pub fn get_main_size(&self) -> (r: u64)
        ensures
            r == self.size(QueueTypeId::Main),
    {
        self.main_size
    }

    /// The recorded size of Ghost.
    pub fn get_ghost_size(&self) -> (r: u64)
        ensures
            r == self.size(QueueTypeId::GhostQueue),
    {
        self.ghost_size
    }

    /// With the invariant, each queue is a circle of its members, oldest first, and each
    /// recorded size is the total weight of the members.
    pub proof fn lemma_queue_shape(&self, q: QueueTypeId)
        requires
            self.wf(),
            q != QueueTypeId::NoQueue,
        ensures
            queue_wf(self.nodes_view(), self.head(q), q, self.members(q)),
            self.size(q) == weight_sum(self.nodes_view(), self.members(q)),
            self.size(q) <= self.threshold(q),
    {
        reveal(CacheShard::inv_with);
    }

    /// Up to `limit` slots of queue `q`, from its head along `next`: the head, then the
    /// youngest member, and so on towards the oldest.
    pub fn queue_slots(&self, q: QueueTypeId, limit: usize) -> (r: Vec<usize>)
        requires
            self.wf(),
        ensures
            r@.len() == if limit < self.members(q).len() {
                limit as int
            } else {
                self.members(q).len() as int
            },
            forall|k: int| 0 <= k < r@.len() ==> #[trigger] r@[k] == walk_next(self.nodes_view(), self.members(q)[0], k as nat),
    {
        proof {
            reveal(CacheShard::inv_with);
        }
        let ghost s = self.members(q);
        let ghost nodes = self.nodes@;
        let mut out: Vec<usize> = Vec::new();
        if let Some(h) = self.queue_head(q) {
            let start = h.idx;
            let mut cur = start;
            proof {
                assert(queue_wf(nodes, self.head(q), q, s));
            }
            while out.len() < limit
                invariant_except_break
                    out@.len() < s.len(),
                    cur == walk_next(nodes, start, out@.len() as nat),
                invariant
                    nodes == self.nodes@,
                    ring(nodes, s),
                    s.len() > 0,
                    start == s[0],
                    out@.len() <= s.len(),
                    out@.len() <= limit,
                    forall|k: int| 0 <= k < out@.len() ==> #[trigger] out@[k] == walk_next(nodes, start, k as nat),
                ensures
                    out@.len() == limit || out@.len() == s.len(),
                decreases limit - out@.len(),
            {
                proof {
                    lemma_walk_ring(nodes, s, out@.len() as nat);
                }
                out.push(cur);
                cur = self.nodes[cur].next;
                proof {
                    lemma_walk_returns(nodes, s, out@.len() as nat);
                }
                if cur == start {
                    break;
                }
            }
        }
        out
    }

    /// Whether a write of weight `w` to `key` under `hash` leaves the queue it lands in
    /// within its threshold: Small for a new key, its own queue for a Small or Main
    /// entry, and Main for a ghost entry, which the write brings back to Main.
    pub open spec fn fits(&self, hash: u64, key: K::V, w: u64) -> bool {
        match self.lookup(hash, key) {
            None => self.size(QueueTypeId::Small) + w <= self.threshold(QueueTypeId::Small),
            Some(i) => {
                let n = self.nodes_view()[i as int];
                if n.queue == QueueTypeId::Small {
                    self.size(QueueTypeId::Small) - n.weight + w <= self.threshold(QueueTypeId::Small)
                } else if n.queue == QueueTypeId::Main {
                    self.size(QueueTypeId::Main) - n.weight + w <= self.threshold(QueueTypeId::Main)
                } else {
                    self.size(QueueTypeId::Main) + w <= self.threshold(QueueTypeId::Main)
                }
            },
        }
    }

    /// Inserts or updates `key`, filed under `hash`, with value `data` of weight
    /// `data_size`, then runs the eviction cascade: Small, then Ghost, then Main.
    ///
    /// A new key is admitted to Small with a cleared counter. An existing key counts the
    /// write as an access and keeps its slot; in Small or Main its value and weight are
    /// replaced in place, and a ghost entry gets the value back and moves to Main with
    /// its counter cleared.
    pub fn insert_bytes(&mut self, hash: u64, key: K, data_size: u64, data: Vec<u8>)
        requires
            old(self).wf(),
            data_size + old(self).threshold(QueueTypeId::Small) + old(self).threshold(QueueTypeId::Main)
                + old(self).threshold(QueueTypeId::GhostQueue) <= u64::MAX,
        ensures
            final(self).wf(),
            Self::write_outcome(*old(self), *final(self), hash, key@, data_size, data@),
    {
        let ghost before = *self;
        let found = self.find_slot(hash, &key);
        let ghost slot: usize;
        match found {
            Some(idx) => {
                proof {
                    slot = idx;
                }
                self.update_existing(idx, Ghost(hash), Ghost(key@), data_size, data);
            },
            None => {
                let r = self.allocate_small(hash, key, data_size, data);
                proof {
                    slot = r.idx;
                }
            },
        }
        let ghost admitted = *self;
        self.evict_small_if_needed(Ghost(slot));
        let ghost after_small = *self;
        self.evict_ghost_if_needed(Ghost(slot));
        let ghost after_ghost = *self;
        self.evict_main_if_needed(Ghost(slot));
        proof {
            Self::lemma_evolved_trans(&admitted, &after_small, &after_ghost);
            Self::lemma_evolved_trans(&admitted, &after_ghost, self);
            admitted.lemma_unique_holder(slot, hash, key@);
            Self::lemma_lookup_evolved(&admitted, self, hash, key@);
            assert forall|h2: u64, k2: K::V|
                !(h2 == hash && k2 == key@) && (#[trigger] self.value_of(h2, k2)) is Some
                    implies self.value_of(h2, k2) == before.value_of(h2, k2) by {
                Self::lemma_lookup_evolved(&admitted, self, h2, k2);
            }
            if before.fits(hash, key@, data_size) {
                assert(*self == admitted);
            }
            if before.lookup(hash, key@) is None && data_size <= before.small_threshold {
                Self::lemma_fitting_admission(&admitted, self, slot, hash, key@, data_size);
            }
            if before.lookup(hash, key@) is None && data_size > before.small_threshold {
                Self::lemma_oversized_admission(&before, &admitted, &after_small, &after_ghost, self, slot, hash, key@, data_size);
            }
        }
    }

    /// A new key that fits in Small stays there, unread, with its value.
    proof fn lemma_fitting_admission(admitted: &Self, b: &Self, slot: usize, hash: u64, key: K::V, w: u64)
        requires
            admitted.inv_with(None),
            admitted.holds_key(slot, hash, key),
            b.inv_with(None),
            b.evolved_from(admitted),
            b.youngest_unread_small(slot, w),
            b.nodes@[slot as int].data == admitted.nodes@[slot as int].data,
        ensures
            b.lookup(hash, key) == Some(slot),
            b.nodes_view()[slot as int].queue == QueueTypeId::Small,
            b.nodes_view()[slot as int].freq == 0,
            b.nodes_view()[slot as int].weight == w,
            b.nodes_view()[slot as int].data == admitted.nodes_view()[slot as int].data,
            b.members(QueueTypeId::Small).last() == slot,
    {
        reveal(CacheShard::inv_with);
        let sm = b.small_members@;
        assert(b.nodes@[sm[sm.len() - 1] as int].queue == QueueTypeId::Small);
        assert(index_entries(b.map).contains_key(slot));
        assert(b.holds_key(slot, hash, key));
        b.lemma_unique_holder(slot, hash, key);
    }

    /// Where a new key heavier than Small's threshold ends up after the cascade.
    #[verifier::spinoff_prover]
    proof fn lemma_oversized_admission(
        before: &Self,
        admitted: &Self,
        after_small: &Self,
        after_ghost: &Self,
        b: &Self,
        slot: usize,
        hash: u64,
        key: K::V,
        w: u64,
    )
        requires
            before.lookup(hash, key) is None,
            w > before.small_threshold,
            admitted.thresholds_of(before),
            admitted.inv_with(None),
            admitted.holds_key(slot, hash, key),
            admitted.youngest_unread_small(slot, w),
            after_small.inv_with(None),
            after_small.evolved_from(admitted),
            after_small.small_members@.len() == 0,
            after_small.youngest_ghost(slot, w),
            after_ghost.inv_with(None),
            after_ghost.evolved_from(after_small),
            after_ghost.small_members == after_small.small_members,
            w <= after_small.ghost_threshold ==> after_ghost.youngest_ghost(slot, w),
            w > after_small.ghost_threshold ==> after_ghost.ghost_members@.len() == 0 && !index_entries(after_ghost.map).contains_key(slot),
            b.inv_with(None),
            b.evolved_from(after_ghost),
            b.small_members == after_ghost.small_members,
            b.ghost_members == after_ghost.ghost_members,
            after_ghost.youngest_ghost(slot, w) ==> b.youngest_ghost(slot, w),
        ensures
            b.members(QueueTypeId::Small).len() == 0,
            w <= before.threshold(QueueTypeId::GhostQueue) ==> (b.lookup(hash, key) matches Some(i) && {
                &&& b.nodes_view()[i as int].queue == QueueTypeId::GhostQueue
                &&& b.nodes_view()[i as int].weight == w
                &&& b.value_of(hash, key) is None
            }),
            w > before.threshold(QueueTypeId::GhostQueue) ==> b.lookup(hash, key) is None && b.members(
                QueueTypeId::GhostQueue,
            ).len() == 0,
    {
        Self::lemma_evolved_trans(admitted, after_small, after_ghost);
        Self::lemma_evolved_trans(admitted, after_ghost, b);
        Self::lemma_lookup_evolved(admitted, b, hash, key);
        admitted.lemma_unique_holder(slot, hash, key);
        if w <= before.ghost_threshold {
            reveal(CacheShard::inv_with);
            assert(b.holds_key(slot, hash, key));
            b.lemma_unique_holder(slot, hash, key);
            let g = b.ghost_members@;
            assert(g[g.len() - 1] == slot);
            assert(b.nodes@[g[g.len() - 1] as int].queue == QueueTypeId::GhostQueue);
        } else {
            if let Some(j) = b.lookup(hash, key) {
                assert(b.holds_key(j, hash, key));
            }
        }
    }

    /// Writes a new value and weight for the key held in live slot `idx`.
    #[verifier::spinoff_prover]
    fn update_existing(&mut self, idx: usize, Ghost(hash): Ghost<u64>, Ghost(key): Ghost<K::V>, data_size: u64, data: Vec<u8>)
        requires
            old(self).inv_with(None),
            old(self).holds_key(idx, hash, key),
            (idx as int) < old(self).nodes@.len(),
            old(self).nodes@[idx as int].queue != QueueTypeId::NoQueue,
            old(self).small_size + old(self).main_size + old(self).ghost_size + data_size <= u64::MAX,
        ensures
            final(self).inv_with(None),
            final(self).holds_key(idx, hash, key),
            final(self).nodes@[idx as int].data == data,
            final(self).thresholds_of(old(self)),
            forall|h2: u64, k2: K::V|
                !(h2 == hash && k2 == key) ==> #[trigger] final(self).value_of(h2, k2) == old(self).value_of(h2, k2),
            old(self).nodes@[idx as int].queue == QueueTypeId::Small ==> final(self).small_size == old(self).small_size - old(self).nodes@[idx as int].weight + data_size
                && final(self).main_size == old(self).main_size && final(self).ghost_size == old(self).ghost_size,
            old(self).nodes@[idx as int].queue == QueueTypeId::Main ==> final(self).main_size == old(self).main_size - old(self).nodes@[idx as int].weight + data_size
                && final(self).small_size == old(self).small_size && final(self).ghost_size == old(self).ghost_size,
            old(self).nodes@[idx as int].queue == QueueTypeId::GhostQueue ==> final(self).main_size == old(self).main_size + data_size
                && final(self).small_size == old(self).small_size && final(self).ghost_size <= old(self).ghost_size,
            old(self).values_present() && data@.len() > 0 ==> final(self).values_present(),
            Self::updated(*old(self), *final(self), idx, data_size, data@),
    {
        let ghost before = *self;
        let node_ref = get_node_ref(idx, &self.nodes);
        let ghost j = self.lemma_member_position(idx);
        if self.nodes[idx].queue == QueueTypeId::GhostQueue {
            let _ = self.detach(node_ref, Ghost(j));
            let ghost mid = *self;
            self.refill_detached(idx, data_size, data);
            let ghost mid2 = *self;
            self.attach(node_ref, QueueTypeId::Main);
            proof {
                Self::lemma_updated_ghost(&before, &mid, &mid2, self, idx, j, data_size, data@);
            }
            proof {
                if before.values_present() && mid2.nodes@[idx as int].data@.len() > 0 {
                    Self::lemma_present_after_detach(&before, &mid, idx, QueueTypeId::GhostQueue, j);
                    Self::lemma_present_outside(&mid, &mid2, idx);
                    Self::lemma_present_after_attach(&mid2, self, idx, QueueTypeId::Main);
                }
            }
            proof {
                reveal(CacheShard::inv_with);
                assert forall|h2: u64, k2: K::V|
                    !(h2 == hash && k2 == key) implies #[trigger] self.value_of(h2, k2) == before.value_of(h2, k2) by {
                    assert forall|jj: usize| #[trigger] self.holds_key(jj, h2, k2) <==> before.holds_key(jj, h2, k2) by {
                        if (jj as int) < before.nodes@.len() {
                            assert(same_payload(self.nodes@[jj as int], mid2.nodes@[jj as int]));
                            assert(same_payload(mid.nodes@[jj as int], before.nodes@[jj as int]));
                        }
                    }
                    Self::lemma_lookup_transfer(&before, self, h2, k2);
                    if let Some(jj) = before.lookup(h2, k2) {
                        assert(before.holds_key(jj, h2, k2));
                        assert(jj != idx);
                        assert(same_payload(self.nodes@[jj as int], mid2.nodes@[jj as int]));
                        assert(same_payload(mid.nodes@[jj as int], before.nodes@[jj as int]));
                    }
                }
                assert(same_payload(self.nodes@[idx as int], mid2.nodes@[idx as int]));
                assert(same_payload(mid.nodes@[idx as int], before.nodes@[idx as int]));
                lemma_tally_nonneg(mid.nodes@, mid.ghost_members@, Tally::Weight);
            }
        } else {
            let ghost data_seq = data@;
            self.reweigh_live(idx, data_size, data, Ghost(j));
            proof {
                Self::lemma_updated_in_place(&before, self, idx, data_size, data_seq);
            }
            proof {
                reveal(CacheShard::inv_with);
                if before.values_present() && self.nodes@[idx as int].data@.len() > 0 {
                    assert forall|i: int| 0 <= i < self.members(QueueTypeId::Small).len() implies (#[trigger] self.nodes_view()[self.members(QueueTypeId::Small)[i] as int]).data@.len() > 0 by {
                        assert(before.nodes_view()[before.members(QueueTypeId::Small)[i] as int].data@.len() > 0);
                    }
                    assert forall|i: int| 0 <= i < self.members(QueueTypeId::Main).len() implies (#[trigger] self.nodes_view()[self.members(QueueTypeId::Main)[i] as int]).data@.len() > 0 by {
                        assert(before.nodes_view()[before.members(QueueTypeId::Main)[i] as int].data@.len() > 0);
                    }
                }
                assert forall|h2: u64, k2: K::V|
                    !(h2 == hash && k2 == key) implies #[trigger] self.value_of(h2, k2) == before.value_of(h2, k2) by {
                    assert forall|jj: usize| #[trigger] self.holds_key(jj, h2, k2) <==> before.holds_key(jj, h2, k2) by {
                        if (jj as int) < before.nodes@.len() && jj != idx {
                            assert(self.nodes@[jj as int] == before.nodes@[jj as int]);
                        }
                    }
                    Self::lemma_lookup_transfer(&before, self, h2, k2);
                    if let Some(jj) = before.lookup(h2, k2) {
                        assert(before.holds_key(jj, h2, k2));
                        assert(jj != idx);
                    }
                }
            }
        }
    }

    /// A ghost entry written again has left Ghost and joined Main.
    #[verifier::spinoff_prover]
    proof fn lemma_updated_ghost(a: &Self, mid: &Self, mid2: &Self, b: &Self, idx: usize, j: int, w: u64, data: Seq<u8>)
        requires
            a.inv_with(None),
            (idx as int) < a.nodes@.len(),
            a.nodes@[idx as int].queue == QueueTypeId::GhostQueue,
            0 <= j < a.members(QueueTypeId::GhostQueue).len(),
            a.members(QueueTypeId::GhostQueue)[j] == idx,
            mid.detached_from(a, idx, QueueTypeId::GhostQueue, j),
            mid2.same_fields_but_nodes(mid),
            mid2.nodes@.len() == mid.nodes@.len(),
            forall|k: int| 0 <= k < mid.nodes@.len() && k != idx ==> #[trigger] mid2.nodes@[k] == mid.nodes@[k],
            mid2.nodes@[idx as int].data@ == data,
            mid2.nodes@[idx as int].weight == w,
            mid2.nodes@[idx as int].freq == 0,
            mid2.nodes@[idx as int].hash == mid.nodes@[idx as int].hash,
            b.attached_to(mid2, idx, QueueTypeId::Main),
        ensures
            Self::updated(*a, *b, idx, w, data),
    {
        assert(same_payload(mid.nodes@[idx as int], a.nodes@[idx as int]));
        assert(same_payload(b.nodes@[idx as int], mid2.nodes@[idx as int]));
        assert forall|k: int|
            0 <= k < a.nodes_view().len() && k != idx implies same_payload(#[trigger] b.nodes_view()[k], a.nodes_view()[k])
                && b.nodes_view()[k].queue == a.nodes_view()[k].queue by {
            assert(same_payload(mid.nodes@[k], a.nodes@[k]));
            assert(same_payload(b.nodes@[k], mid2.nodes@[k]));
        }
        assert(b.members(QueueTypeId::GhostQueue) == a.members(QueueTypeId::GhostQueue).remove(j));
    }

    /// A Small or Main entry written again keeps its place.
    #[verifier::spinoff_prover]
    proof fn lemma_updated_in_place(a: &Self, b: &Self, idx: usize, w: u64, data: Seq<u8>)
        requires
            (idx as int) < a.nodes@.len(),
            a.nodes@[idx as int].queue == QueueTypeId::Small || a.nodes@[idx as int].queue == QueueTypeId::Main,
            b.nodes@.len() == a.nodes@.len(),
            forall|k: int| 0 <= k < a.nodes@.len() && k != idx ==> #[trigger] b.nodes@[k] == a.nodes@[k],
            b.nodes@[idx as int].data@ == data,
            b.nodes@[idx as int].weight == w,
            b.nodes@[idx as int].freq == bumped(a.nodes@[idx as int]).freq,
            b.nodes@[idx as int].hash == a.nodes@[idx as int].hash,
            b.nodes@[idx as int].queue == a.nodes@[idx as int].queue,
            b.map == a.map,
            b.nodes_keys == a.nodes_keys,
            b.small_members == a.small_members,
            b.main_members == a.main_members,
            b.ghost_members == a.ghost_members,
            a.nodes@[idx as int].queue == QueueTypeId::Small ==> b.small_size == a.small_size - a.nodes@[idx as int].weight + w
                && b.main_size == a.main_size && b.ghost_size == a.ghost_size,
            a.nodes@[idx as int].queue == QueueTypeId::Main ==> b.main_size == a.main_size - a.nodes@[idx as int].weight + w
                && b.small_size == a.small_size && b.ghost_size == a.ghost_size,
        ensures
            Self::updated(*a, *b, idx, w, data),
    {
    }

    /// Puts a new value and weight into live slot `idx` of Small or Main, in place, and
    /// counts the write as an access.
    #[verifier::spinoff_prover]
    fn reweigh_live(&mut self, idx: usize, data_size: u64, data: Vec<u8>, Ghost(j): Ghost<int>)
        requires
            old(self).inv_with(None),
            (idx as int) < old(self).nodes@.len(),
            old(self).nodes@[idx as int].queue == QueueTypeId::Small || old(self).nodes@[idx as int].queue == QueueTypeId::Main,
            0 <= j < old(self).members(old(self).nodes@[idx as int].queue).len(),
            old(self).members(old(self).nodes@[idx as int].queue)[j] == idx,
            old(self).small_size + old(self).main_size + old(self).ghost_size + data_size <= u64::MAX,
        ensures
            final(self).inv_with(None),
            final(self).nodes@ == old(self).nodes@.update(
                idx as int,
                Node { data: data, weight: data_size, freq: bumped(old(self).nodes@[idx as int]).freq, ..old(self).nodes@[idx as int] },
            ),
            final(self).map == old(self).map,
            final(self).nodes_keys == old(self).nodes_keys,
            final(self).small_members == old(self).small_members,
            final(self).main_members == old(self).main_members,
            final(self).ghost_members == old(self).ghost_members,
            final(self).thresholds_of(old(self)),
            old(self).nodes@[idx as int].queue == QueueTypeId::Small ==> final(self).small_size == old(self).small_size - old(self).nodes@[idx as int].weight + data_size
                && final(self).main_size == old(self).main_size && final(self).ghost_size == old(self).ghost_size,
            old(self).nodes@[idx as int].queue == QueueTypeId::Main ==> final(self).main_size == old(self).main_size - old(self).nodes@[idx as int].weight + data_size
                && final(self).small_size == old(self).small_size && final(self).ghost_size == old(self).ghost_size,
    {
        proof {
            reveal(CacheShard::inv_with);
        }
        let ghost before = *self;
        let q = self.nodes[idx].queue;
        let old_w = self.nodes[idx].weight;
        let f = self.nodes[idx].freq;
        let ghost s = self.members(q);
        proof {
            lemma_tally_remove(self.nodes@, s, j, Tally::Weight);
            lemma_tally_nonneg(self.nodes@, s.remove(j), Tally::Weight);
        }
        self.nodes[idx].data = data;
        self.nodes[idx].weight = data_size;
        self.nodes[idx].freq = if f < 3 {
            f + 1
        } else {
            f
        };
        if q == QueueTypeId::Small {
            self.small_size = self.small_size - old_w + data_size;
        } else {
            self.main_size = self.main_size - old_w + data_size;
        }
        proof {
            Self::lemma_reweigh_inv(&before, self, idx, q, j);
        }
    }

    #[verifier::spinoff_prover]
    proof fn lemma_reweigh_inv(before: &Self, after: &Self, idx: usize, q: QueueTypeId, j: int)
        requires
            before.inv_with(None),
            (idx as int) < before.nodes@.len(),
            q == before.nodes@[idx as int].queue,
            q == QueueTypeId::Small || q == QueueTypeId::Main,
            0 <= j < before.members(q).len(),
            before.members(q)[j] == idx,
            after.nodes@.len() == before.nodes@.len(),
            forall|k: int| 0 <= k < before.nodes@.len() && k != idx ==> #[trigger] after.nodes@[k] == before.nodes@[k],
            after.nodes@[idx as int].next == before.nodes@[idx as int].next,
            after.nodes@[idx as int].prev == before.nodes@[idx as int].prev,
            after.nodes@[idx as int].queue == q,
            after.nodes@[idx as int].hash == before.nodes@[idx as int].hash,
            after.nodes@[idx as int].freq <= 3,
            after.map == before.map,
            after.nodes_keys == before.nodes_keys,
            after.freelist == before.freelist,
            after.small_head == before.small_head,
            after.main_head == before.main_head,
            after.ghost_head == before.ghost_head,
            after.small_members == before.small_members,
            after.main_members == before.main_members,
            after.ghost_members == before.ghost_members,
            after.ghost_size == before.ghost_size,
            q == QueueTypeId::Small ==> after.small_size == before.small_size - before.nodes@[idx as int].weight
                + after.nodes@[idx as int].weight && after.main_size == before.main_size,
            q == QueueTypeId::Main ==> after.main_size == before.main_size - before.nodes@[idx as int].weight
                + after.nodes@[idx as int].weight && after.small_size == before.small_size,
            after.small_size + after.main_size + after.ghost_size <= u64::MAX,
        ensures
            after.inv_with(None),
    {
        Self::lemma_reweigh_queue(before, after, idx, q, j, QueueTypeId::Small);
        Self::lemma_reweigh_queue(before, after, idx, q, j, QueueTypeId::Main);
        Self::lemma_reweigh_queue(before, after, idx, q, j, QueueTypeId::GhostQueue);
        reveal(CacheShard::inv_with);
        let an = before.nodes@;
        let bn = after.nodes@;
        assert(weight_sum(bn, after.small_members@) == after.small_size);
        assert(weight_sum(bn, after.main_members@) == after.main_size);
        assert(weight_sum(bn, after.ghost_members@) == after.ghost_size);
        assert forall|i: int| 0 <= i < after.ghost_members@.len() implies (#[trigger] bn[after.ghost_members@[i] as int]).data@.len() == 0 by {
            assert(an[after.ghost_members@[i] as int].queue == QueueTypeId::GhostQueue);
        }
        assert forall|k: usize|
            (k as int) < bn.len() && #[trigger] bn[k as int].queue == QueueTypeId::NoQueue
                implies exists|i: int| 0 <= i < after.freelist@.len() && after.freelist@[i].idx == k by {
            assert(an[k as int].queue == QueueTypeId::NoQueue);
            assert(after.freelist@ == before.freelist@);
        }
        assert forall|k: int| 0 <= k < bn.len() implies (#[trigger] bn[k]).freq <= 3 by {
            if k != idx {
                assert(bn[k] == an[k]);
            }
        }
        assert forall|k: usize| #[trigger] index_entries(after.map).contains_key(k) <==> ((k as int) < bn.len() && bn[k as int].queue
            != QueueTypeId::NoQueue) by {
            if (k as int) < bn.len() && k != idx {
                assert(bn[k as int] == an[k as int]);
            }
        }
        assert forall|k: usize| #[trigger] index_entries(after.map).contains_key(k) implies index_entries(after.map)[k] == bn[k as int].hash by {
            if k != idx {
                assert(bn[k as int] == an[k as int]);
            }
        }
        assert forall|x: usize, y: usize|
            #[trigger] index_entries(after.map).contains_key(x) && #[trigger] index_entries(after.map).contains_key(y) && x != y implies !(
            bn[x as int].hash == bn[y as int].hash && after.nodes_keys@[x as int]@ == after.nodes_keys@[y as int]@) by {
            assert(bn[x as int].hash == an[x as int].hash);
            assert(bn[y as int].hash == an[y as int].hash);
        }
        assert forall|i: int| 0 <= i < after.freelist@.len() implies {
            let k = (#[trigger] after.freelist@[i]).idx;
            &&& (k as int) < bn.len()
            &&& bn[k as int].queue == QueueTypeId::NoQueue
            &&& None::<usize> != Some(k)
        } by {
            let k = after.freelist@[i].idx;
            assert(after.freelist@[i] == before.freelist@[i]);
            assert(an[k as int].queue == QueueTypeId::NoQueue);
        }
    }

    /// Queue `p` after `reweigh_live`.
    #[verifier::spinoff_prover]
    proof fn lemma_reweigh_queue(before: &Self, after: &Self, idx: usize, q: QueueTypeId, j: int, p: QueueTypeId)
        requires
            before.inv_with(None),
            (idx as int) < before.nodes@.len(),
            q == before.nodes@[idx as int].queue,
            q == QueueTypeId::Small || q == QueueTypeId::Main,
            0 <= j < before.members(q).len(),
            before.members(q)[j] == idx,
            after.nodes@.len() == before.nodes@.len(),
            forall|k: int| 0 <= k < before.nodes@.len() && k != idx ==> #[trigger] after.nodes@[k] == before.nodes@[k],
            after.nodes@[idx as int].next == before.nodes@[idx as int].next,
            after.nodes@[idx as int].prev == before.nodes@[idx as int].prev,
            after.nodes@[idx as int].queue == q,
            after.nodes@[idx as int].hash == before.nodes@[idx as int].hash,
            after.nodes@[idx as int].freq <= 3,
            after.map == before.map,
            after.nodes_keys == before.nodes_keys,
            after.freelist == before.freelist,
            after.small_head == before.small_head,
            after.main_head == before.main_head,
            after.ghost_head == before.ghost_head,
            after.small_members == before.small_members,
            after.main_members == before.main_members,
            after.ghost_members == before.ghost_members,
            after.ghost_size == before.ghost_size,
            q == QueueTypeId::Small ==> after.small_size == before.small_size - before.nodes@[idx as int].weight
                + after.nodes@[idx as int].weight && after.main_size == before.main_size,
            q == QueueTypeId::Main ==> after.main_size == before.main_size - before.nodes@[idx as int].weight
                + after.nodes@[idx as int].weight && after.small_size == before.small_size,
            after.small_size + after.main_size + after.ghost_size <= u64::MAX,
            p != QueueTypeId::NoQueue,
        ensures
            queue_wf(after.nodes@, after.head(p), p, after.members(p)),
            weight_sum(after.nodes@, after.members(p)) == after.size(p),
    {
        reveal(CacheShard::inv_with);
        let an = before.nodes@;
        let bn = after.nodes@;
        let s = before.members(q);
        if p != q {
            let t = before.members(p);
            assert(queue_wf(an, before.head(p), p, t));
            assert forall|m: int| 0 <= m < t.len() implies #[trigger] bn[t[m] as int] == an[t[m] as int] by {
                assert(an[t[m] as int].queue == p);
            }
            assert forall|k: int| 0 <= k < bn.len() implies (#[trigger] bn[k].queue == p <==> (k < an.len() && an[k].queue == p)) by {
                if k != idx {
                    assert(bn[k] == an[k]);
                }
            }
            lemma_queue_kept(an, bn, before.head(p), p, t);
        } else {
            assert(queue_wf(an, before.head(q), q, s));
            assert forall|i: int| 0 <= i < s.len() implies (#[trigger] bn[s[i] as int]).next == an[s[i] as int].next && bn[s[i] as int].prev
                == an[s[i] as int].prev && bn[s[i] as int].queue == an[s[i] as int].queue by {
                if s[i] != idx {
                    assert(bn[s[i] as int] == an[s[i] as int]);
                }
            }
            assert forall|k: int| 0 <= k < an.len() implies (#[trigger] bn[k].queue == q <==> an[k].queue == q) by {
                if k != idx {
                    assert(bn[k] == an[k]);
                }
            }
            assert(links_kept(an, bn, q, s));
            lemma_queue_wf_frame(an, bn, before.head(q), q, s);
            assert forall|m: int| 0 <= m < s.remove(j).len() implies tally_of(#[trigger] an[s.remove(j)[m] as int], Tally::Weight)
                == tally_of(bn[s.remove(j)[m] as int], Tally::Weight) by {
                let k = if m < j { m } else { m + 1 };
                assert(s.remove(j)[m] == s[k]);
                assert(s[k] != idx);
                assert(bn[s[k] as int] == an[s[k] as int]);
            }
            lemma_tally_frame(an, bn, s.remove(j), Tally::Weight);
            lemma_tally_remove(bn, s, j, Tally::Weight);
            lemma_tally_remove(an, s, j, Tally::Weight);
        }
    }

    /// Changing what slots hold without touching links, tags, hashes, the weights of
    /// queue members or the values of ghost members keeps the invariant.
    proof fn lemma_payload_frame(a: &Self, b: &Self, d: Option<usize>)
        requires
            a.inv_with(d),
            b.same_fields_but_nodes(a),
            a.nodes@.len() == b.nodes@.len(),
            forall|k: int|
                0 <= k < a.nodes@.len() ==> {
                    &&& (#[trigger] b.nodes@[k]).next == a.nodes@[k].next
                    &&& b.nodes@[k].prev == a.nodes@[k].prev
                    &&& b.nodes@[k].queue == a.nodes@[k].queue
                    &&& b.nodes@[k].hash == a.nodes@[k].hash
                    &&& b.nodes@[k].freq <= 3
                    &&& (b.nodes@[k].queue != QueueTypeId::NoQueue ==> b.nodes@[k].weight
                        == a.nodes@[k].weight)
                    &&& (b.nodes@[k].queue == QueueTypeId::GhostQueue ==> b.nodes@[k].data
                        == a.nodes@[k].data)
                },
            b.small_size + b.main_size + b.ghost_size + b.detached_weight(d) <= u64::MAX,
        ensures
            b.inv_with(d),
    {
        reveal(CacheShard::inv_with);
        let an = a.nodes@;
        let bn = b.nodes@;
        Self::lemma_queue_payload_frame(an, bn, a.small_head, QueueTypeId::Small, a.small_members@);
        Self::lemma_queue_payload_frame(an, bn, a.main_head, QueueTypeId::Main, a.main_members@);
        Self::lemma_queue_payload_frame(an, bn, a.ghost_head, QueueTypeId::GhostQueue, a.ghost_members@);
        assert forall|i: int| 0 <= i < a.ghost_members@.len() implies (#[trigger] bn[a.ghost_members@[i] as int]).data@.len() == 0 by {
            assert(an[a.ghost_members@[i] as int].queue == QueueTypeId::GhostQueue);
        }
        assert forall|k: usize|
            (k as int) < bn.len() && #[trigger] bn[k as int].queue == QueueTypeId::NoQueue && d
                != Some(k) implies exists|i: int| 0 <= i < b.freelist@.len() && b.freelist@[i].idx == k by {
            assert(an[k as int].queue == QueueTypeId::NoQueue);
        }
    }

    /// One queue under `lemma_payload_frame`.
    proof fn lemma_queue_payload_frame(
        a: Seq<Node>,
        b: Seq<Node>,
        head: Option<NodeRef>,
        q: QueueTypeId,
        s: Seq<usize>,
    )
        requires
            queue_wf(a, head, q, s),
            a.len() == b.len(),
            forall|k: int|
                0 <= k < a.len() ==> {
                    &&& (#[trigger] b[k]).next == a[k].next
                    &&& b[k].prev == a[k].prev
                    &&& b[k].queue == a[k].queue
                    &&& (b[k].queue != QueueTypeId::NoQueue ==> b[k].weight == a[k].weight)
                },
        ensures
            queue_wf(b, head, q, s),
            weight_sum(b, s) == weight_sum(a, s),
    {
        assert forall|i: int| 0 <= i < s.len() implies (#[trigger] b[s[i] as int]).next == a[s[i] as int].next
            && b[s[i] as int].prev == a[s[i] as int].prev && b[s[i] as int].queue == a[s[i] as int].queue by {
            assert(b[s[i] as int] == b[s[i] as int]);
        }
        assert forall|j: int| 0 <= j < a.len() implies (#[trigger] b[j].queue == q <==> a[j].queue == q) by {
            assert(b[j] == b[j]);
        }
        assert(links_kept(a, b, q, s));
        lemma_queue_wf_frame(a, b, head, q, s);
        assert forall|m: int| 0 <= m < s.len() implies tally_of(#[trigger] a[s[m] as int], Tally::Weight)
            == tally_of(b[s[m] as int], Tally::Weight) by {
            assert(a[s[m] as int].queue == q);
            assert(b[s[m] as int] == b[s[m] as int]);
        }
        lemma_tally_frame(a, b, s, Tally::Weight);
    }

    /// `self` is `old` with slot `idx` taken out of queue `q`, where it stood `j`-th.
    closed spec fn detached_from(&self, old: &Self, idx: usize, q: QueueTypeId, j: int) -> bool {
        &&& self.map == old.map
        &&& self.nodes_keys == old.nodes_keys
        &&& self.freelist == old.freelist
        &&& self.thresholds_of(old)
        &&& self.nodes@.len() == old.nodes@.len()
        &&& forall|k: int| 0 <= k < old.nodes@.len() ==> same_payload(#[trigger] self.nodes@[k], old.nodes@[k])
        &&& forall|k: int| 0 <= k < old.nodes@.len() && k != idx ==> #[trigger] self.nodes@[k].queue == old.nodes@[k].queue
        &&& self.nodes@[idx as int].queue == QueueTypeId::NoQueue
        &&& self.members(q) == old.members(q).remove(j)
        &&& outside_kept(old.nodes@, self.nodes@, old.members(q))
        &&& self.size(q) == old.size(q) - old.nodes@[idx as int].weight
        &&& self.others_kept_but(old, q)
    }

    /// Queue `p` has the same members, head and size in `self` and `old`.
    pub open spec fn queue_kept(&self, old: &Self, p: QueueTypeId) -> bool {
        &&& self.members(p) == old.members(p)
        &&& self.head(p) == old.head(p)
        &&& self.size(p) == old.size(p)
    }

    /// Every queue but `q` has the same members, head and size in `self` and `old`.
    pub open spec fn others_kept_but(&self, old: &Self, q: QueueTypeId) -> bool {
        &&& (q != QueueTypeId::Small ==> self.queue_kept(old, QueueTypeId::Small))
        &&& (q != QueueTypeId::Main ==> self.queue_kept(old, QueueTypeId::Main))
        &&& (q != QueueTypeId::GhostQueue ==> self.queue_kept(old, QueueTypeId::GhostQueue))
    }

    /// `self` has the thresholds of `old`.
    closed spec fn thresholds_of(&self, old: &Self) -> bool {
        &&& self.small_threshold == old.small_threshold
        &&& self.main_threshold == old.main_threshold
        &&& self.ghost_threshold == old.ghost_threshold
    }

    /// The position of live slot `idx` in its queue.
    proof fn lemma_member_position(&self, idx: usize) -> (j: int)
        requires
            self.inv_with(None),
            (idx as int) < self.nodes@.len(),
            self.nodes@[idx as int].queue != QueueTypeId::NoQueue,
        ensures
            0 <= j < self.members(self.nodes@[idx as int].queue).len(),
            self.members(self.nodes@[idx as int].queue)[j] == idx,
    {
        reveal(CacheShard::inv_with);
        let q = self.nodes@[idx as int].queue;
        assert(self.members(q).contains(idx));
        choose|j: int| 0 <= j < self.members(q).len() && self.members(q)[j] == idx
    }

    /// Takes live slot `idx`, the `j`-th member of its queue, out of that queue; it stays
    /// in the index and off the freelist.
    #[verifier::spinoff_prover]
    #[verifier::rlimit(100)]
    fn detach(&mut self, node_ref: NodeRef, Ghost(j): Ghost<int>) -> (q: QueueTypeId)
        requires
            old(self).inv_with(None),
            (node_ref.idx as int) < old(self).nodes@.len(),
            old(self).nodes@[node_ref.idx as int].queue != QueueTypeId::NoQueue,
            0 <= j < old(self).members(old(self).nodes@[node_ref.idx as int].queue).len(),
            old(self).members(old(self).nodes@[node_ref.idx as int].queue)[j] == node_ref.idx,
        ensures
            q == old(self).nodes@[node_ref.idx as int].queue,
            final(self).inv_with(Some(node_ref.idx)),
            final(self).detached_from(old(self), node_ref.idx, q, j),
            final(self).evolved_from(old(self)),
    {
        proof {
            reveal(CacheShard::inv_with);
        }
        let idx = node_ref.idx;
        let q = self.nodes[idx].queue;
        let w = self.nodes[idx].weight;
        let ghost before = *self;
        let ghost s = self.members(q);
        proof {
            lemma_tally_remove(self.nodes@, s, j, Tally::Weight);
            lemma_tally_nonneg(self.nodes@, s.remove(j), Tally::Weight);
        }
        let mut head = self.queue_head(q);
        let size = self.queue_size(q) - w;
        detach_node(node_ref, &mut head, &mut self.nodes, Ghost(q), Ghost(s), Ghost(j));
        self.set_queue(q, head, size, Ghost(s.remove(j)));
        proof {
            Self::lemma_detach_inv(&before, self, idx, q, j);
        }
        q
    }

    /// The head of queue `q`.
    fn queue_head(&self, q: QueueTypeId) -> (r: Option<NodeRef>)
        ensures
            r == self.head(q),
    {
        match q {
            QueueTypeId::Small => self.small_head,
            QueueTypeId::Main => self.main_head,
            QueueTypeId::GhostQueue => self.ghost_head,
            QueueTypeId::NoQueue => None,
        }
    }

    /// The recorded size of queue `q`.
    fn queue_size(&self, q: QueueTypeId) -> (r: u64)
        ensures
            r == self.size(q),
    {
        match q {
            QueueTypeId::Small => self.small_size,
            QueueTypeId::Main => self.main_size,
            QueueTypeId::GhostQueue => self.ghost_size,
            QueueTypeId::NoQueue => 0,
        }
    }

    /// Replaces the head, size and member list of queue `q`.
    fn set_queue(&mut self, q: QueueTypeId, head: Option<NodeRef>, size: u64, Ghost(members): Ghost<Seq<usize>>)
        requires
            q != QueueTypeId::NoQueue,
        ensures
            final(self).head(q) == head,
            final(self).size(q) == size,
            final(self).members(q) == members,
            final(self).others_kept_but(old(self), q),
            final(self).same_fields_but_queues(old(self)),
    {
        match q {
            QueueTypeId::Small => {
                self.small_head = head;
                self.small_size = size;
                self.small_members = Ghost(members);
            },
            QueueTypeId::Main => {
                self.main_head = head;
                self.main_size = size;
                self.main_members = Ghost(members);
            },
            _ => {
                self.ghost_head = head;
                self.ghost_size = size;
                self.ghost_members = Ghost(members);
            },
        }
    }

    /// All fields but the queue heads, sizes and member lists agree.
    closed spec fn same_fields_but_queues(&self, other: &Self) -> bool {
        &&& self.map == other.map
        &&& self.nodes == other.nodes
        &&& self.nodes_keys == other.nodes_keys
        &&& self.freelist == other.freelist
        &&& self.thresholds_of(other)
    }

    #[verifier::spinoff_prover]
    proof fn lemma_detach_inv(a: &Self, b: &Self, idx: usize, q: QueueTypeId, j: int)
        requires
            a.inv_with(None),
            q != QueueTypeId::NoQueue,
            (idx as int) < a.nodes@.len(),
            a.nodes@[idx as int].queue == q,
            0 <= j < a.members(q).len(),
            a.members(q)[j] == idx,
            b.detached_from(a, idx, q, j),
            queue_wf(b.nodes@, b.head(q), q, b.members(q)),
            outside_kept(a.nodes@, b.nodes@, a.members(q)),
        ensures
            b.inv_with(Some(idx)),
    {
        reveal(CacheShard::inv_with);
        Self::lemma_detach_one(a, b, idx, q, j, QueueTypeId::Small);
        Self::lemma_detach_one(a, b, idx, q, j, QueueTypeId::Main);
        Self::lemma_detach_one(a, b, idx, q, j, QueueTypeId::GhostQueue);
        Self::lemma_detach_rest(a, b, idx, q, j);
    }

    /// The parts of the invariant after `detach` that do not concern queue shapes.
    #[verifier::spinoff_prover]
    proof fn lemma_detach_rest(a: &Self, b: &Self, idx: usize, q: QueueTypeId, j: int)
        requires
            a.inv_with(None),
            q != QueueTypeId::NoQueue,
            (idx as int) < a.nodes@.len(),
            a.nodes@[idx as int].queue == q,
            0 <= j < a.members(q).len(),
            a.members(q)[j] == idx,
            b.detached_from(a, idx, q, j),
            queue_wf(b.nodes@, b.head(q), q, b.members(q)),
            outside_kept(a.nodes@, b.nodes@, a.members(q)),
        ensures
            ({
                let bn = b.nodes@;
                let index = index_entries(b.map);
                &&& forall|i: int|
                    0 <= i < b.ghost_members@.len() ==> (#[trigger] bn[b.ghost_members@[i] as int]).data@.len() == 0
                &&& forall|k: int| 0 <= k < bn.len() ==> (#[trigger] bn[k]).freq <= 3
                &&& forall|i: int|
                    0 <= i < b.freelist@.len() ==> {
                        let k = (#[trigger] b.freelist@[i]).idx;
                        &&& (k as int) < bn.len()
                        &&& bn[k as int].queue == QueueTypeId::NoQueue
                        &&& Some(idx) != Some(k)
                    }
                &&& forall|k: usize|
                    (k as int) < bn.len() && #[trigger] bn[k as int].queue == QueueTypeId::NoQueue && Some(idx)
                        != Some(k) ==> exists|i: int| 0 <= i < b.freelist@.len() && b.freelist@[i].idx == k
                &&& forall|k: usize|
                    #[trigger] index.contains_key(k) <==> ((k as int) < bn.len() && (bn[k as int].queue
                        != QueueTypeId::NoQueue || Some(idx) == Some(k)))
                &&& forall|k: usize| #[trigger] index.contains_key(k) ==> index[k] == bn[k as int].hash
                &&& forall|x: usize, y: usize|
                    #[trigger] index.contains_key(x) && #[trigger] index.contains_key(y) && x != y ==> !(
                    bn[x as int].hash == bn[y as int].hash && b.nodes_keys@[x as int]@ == b.nodes_keys@[y as int]@)
            }),
    {
        reveal(CacheShard::inv_with);
        let an = a.nodes@;
        let bn = b.nodes@;
        assert forall|i: int| 0 <= i < b.ghost_members@.len() implies (#[trigger] bn[b.ghost_members@[i] as int]).data@.len() == 0 by {
            if q == QueueTypeId::GhostQueue {
                let k = if i < j { i } else { i + 1 };
                assert(b.ghost_members@[i] == a.ghost_members@[k]);
            }
            assert(same_payload(bn[b.ghost_members@[i] as int], an[b.ghost_members@[i] as int]));
        }
        assert forall|k: int| 0 <= k < bn.len() implies (#[trigger] bn[k]).freq <= 3 by {
            assert(same_payload(bn[k], an[k]));
        }
        assert forall|i: int| 0 <= i < b.freelist@.len() implies {
            let k = (#[trigger] b.freelist@[i]).idx;
            &&& (k as int) < bn.len()
            &&& bn[k as int].queue == QueueTypeId::NoQueue
            &&& Some(idx) != Some(k)
        } by {
            let k = b.freelist@[i].idx;
            assert(an[k as int].queue == QueueTypeId::NoQueue);
        }
        assert forall|k: usize|
            (k as int) < bn.len() && #[trigger] bn[k as int].queue == QueueTypeId::NoQueue && Some(idx)
                != Some(k) implies exists|i: int| 0 <= i < b.freelist@.len() && b.freelist@[i].idx == k by {
            assert(an[k as int].queue == QueueTypeId::NoQueue);
        }
        assert forall|k: usize|
            #[trigger] index_entries(b.map).contains_key(k) <==> ((k as int) < bn.len() && (bn[k as int].queue
                != QueueTypeId::NoQueue || Some(idx) == Some(k))) by {
            if (k as int) < bn.len() && k != idx {
                assert(bn[k as int].queue == an[k as int].queue);
            }
        }
        assert forall|k: usize| #[trigger] index_entries(b.map).contains_key(k) implies index_entries(b.map)[k] == bn[k as int].hash by {
            assert(same_payload(bn[k as int], an[k as int]));
        }
        assert forall|x: usize, y: usize|
            #[trigger] index_entries(b.map).contains_key(x) && #[trigger] index_entries(b.map).contains_key(y) && x != y implies !(
            bn[x as int].hash == bn[y as int].hash && b.nodes_keys@[x as int]@ == b.nodes_keys@[y as int]@) by {
            assert(same_payload(bn[x as int], an[x as int]));
            assert(same_payload(bn[y as int], an[y as int]));
        }
        assert(same_payload(bn[idx as int], an[idx as int]));
    }

    /// Queue `p` after `detach`: well formed, and its size is its weight.
    proof fn lemma_detach_one(a: &Self, b: &Self, idx: usize, q: QueueTypeId, j: int, p: QueueTypeId)
        requires
            a.inv_with(None),
            q != QueueTypeId::NoQueue,
            p != QueueTypeId::NoQueue,
            (idx as int) < a.nodes@.len(),
            a.nodes@[idx as int].queue == q,
            0 <= j < a.members(q).len(),
            a.members(q)[j] == idx,
            b.detached_from(a, idx, q, j),
            queue_wf(b.nodes@, b.head(q), q, b.members(q)),
            outside_kept(a.nodes@, b.nodes@, a.members(q)),
        ensures
            queue_wf(b.nodes@, b.head(p), p, b.members(p)),
            weight_sum(b.nodes@, b.members(p)) == b.size(p),
    {
        reveal(CacheShard::inv_with);
        let an = a.nodes@;
        let bn = b.nodes@;
        let s = a.members(q);
        if p == q {
            assert forall|m: int| 0 <= m < s.remove(j).len() implies tally_of(#[trigger] an[s.remove(j)[m] as int], Tally::Weight)
                == tally_of(bn[s.remove(j)[m] as int], Tally::Weight) by {
                assert(same_payload(bn[s.remove(j)[m] as int], an[s.remove(j)[m] as int]));
            }
            lemma_tally_frame(an, bn, s.remove(j), Tally::Weight);
            lemma_tally_remove(an, s, j, Tally::Weight);
            assert(queue_wf(an, a.head(q), q, s));
        } else {
            assert forall|k: usize|
                (k as int) < an.len() && an[k as int].queue == p implies #[trigger] bn[k as int] == an[k as int] by {
                if s.contains(k) {
                    let i = choose|i: int| 0 <= i < s.len() && s[i] == k;
                    assert(an[s[i] as int].queue == q);
                }
            }
            assert(b.queue_kept(a, p));
            Self::lemma_other_queue_kept(a, b, idx, q, p);
            assert(queue_wf(an, a.head(p), p, a.members(p)));
        }
    }

    /// A queue other than `q` keeps its shape when slot `idx` leaves or joins `q`.
    proof fn lemma_other_queue_kept(a: &Self, b: &Self, idx: usize, q: QueueTypeId, p: QueueTypeId)
        requires
            a.inv_with(None) || a.inv_with(Some(idx)),
            p != QueueTypeId::NoQueue,
            p != q,
            (idx as int) < a.nodes@.len(),
            a.nodes@[idx as int].queue == q || a.nodes@[idx as int].queue == QueueTypeId::NoQueue,
            b.nodes@[idx as int].queue == q || b.nodes@[idx as int].queue == QueueTypeId::NoQueue,
            b.nodes@.len() == a.nodes@.len(),
            b.queue_kept(a, p),
            forall|k: int| 0 <= k < a.nodes@.len() && k != idx ==> #[trigger] b.nodes@[k].queue == a.nodes@[k].queue,
            forall|k: usize|
                (k as int) < a.nodes@.len() && a.nodes@[k as int].queue == p ==> #[trigger] b.nodes@[k as int]
                    == a.nodes@[k as int],
        ensures
            queue_wf(b.nodes@, b.head(p), p, b.members(p)),
            weight_sum(b.nodes@, b.members(p)) == weight_sum(a.nodes@, a.members(p)),
    {
        reveal(CacheShard::inv_with);
        let an = a.nodes@;
        let bn = b.nodes@;
        let s = a.members(p);
        assert(queue_wf(an, a.head(p), p, s));
        assert forall|i: int| 0 <= i < s.len() implies #[trigger] bn[s[i] as int] == an[s[i] as int] by {
            assert(an[s[i] as int].queue == p);
        }
        assert forall|k: int| 0 <= k < bn.len() implies (#[trigger] bn[k].queue == p <==> (k < an.len() && an[k].queue == p)) by {
            if k != idx {
                assert(bn[k].queue == an[k].queue);
            }
        }
        lemma_queue_kept(an, bn, a.head(p), p, s);
    }

    /// Takes out of the index, clears and puts on the freelist the slot `idx` that was
    /// taken out of its queue.
    #[verifier::spinoff_prover]
    fn release(&mut self, node_ref: NodeRef)
        requires
            old(self).inv_with(Some(node_ref.idx)),
        ensures
            final(self).inv_with(None),
            final(self).map_removed(old(self), node_ref.idx),
            final(self).evolved_from(old(self)),
    {
        proof {
            reveal(CacheShard::inv_with);
        }
        let idx = node_ref.idx;
        let ghost before = *self;
        let freed = evict_node(node_ref, &mut self.nodes);
        let hash = self.nodes[idx].hash;
        self.map.remove(hash, idx);
        self.freelist.push(freed);
        proof {
            let an = before.nodes@;
            let bn = self.nodes@;
            Self::lemma_release_one(&before, self, idx, QueueTypeId::Small);
            Self::lemma_release_one(&before, self, idx, QueueTypeId::Main);
            Self::lemma_release_one(&before, self, idx, QueueTypeId::GhostQueue);
            assert forall|i: int| 0 <= i < self.ghost_members@.len() implies (#[trigger] bn[self.ghost_members@[i] as int]).data@.len() == 0 by {
                assert(an[self.ghost_members@[i] as int].queue == QueueTypeId::GhostQueue);
            }
            assert forall|i: int| 0 <= i < self.freelist@.len() implies {
                let k = (#[trigger] self.freelist@[i]).idx;
                &&& (k as int) < bn.len()
                &&& bn[k as int].queue == QueueTypeId::NoQueue
                &&& None::<usize> != Some(k)
            } by {
                if i < before.freelist@.len() {
                    assert(self.freelist@[i] == before.freelist@[i]);
                }
            }
            assert forall|x: int, y: int|
                0 <= x < y < self.freelist@.len() implies (#[trigger] self.freelist@[x]).idx != (
                #[trigger] self.freelist@[y]).idx by {
                assert(self.freelist@[x] == before.freelist@[x]);
                if y < before.freelist@.len() {
                    assert(self.freelist@[y] == before.freelist@[y]);
                }
            }
            assert forall|k: usize|
                (k as int) < bn.len() && #[trigger] bn[k as int].queue == QueueTypeId::NoQueue implies exists|i: int| 0 <= i < self.freelist@.len() && self.freelist@[i].idx == k by {
                if k == idx {
                    assert(self.freelist@[before.freelist@.len() as int].idx == k);
                } else {
                    assert(an[k as int].queue == QueueTypeId::NoQueue);
                    let i = choose|i: int| 0 <= i < before.freelist@.len() && before.freelist@[i].idx == k;
                    assert(self.freelist@[i].idx == k);
                }
            }
            assert forall|k: int| 0 <= k < bn.len() implies (#[trigger] bn[k]).freq <= 3 by {
                assert(k != idx ==> bn[k] == an[k]);
            }
            assert forall|k: usize| #[trigger] index_entries(self.map).contains_key(k) implies index_entries(self.map)[k] == bn[k as int].hash by {
                assert(bn[k as int].hash == an[k as int].hash);
            }
            assert forall|x: usize, y: usize|
                #[trigger] index_entries(self.map).contains_key(x) && #[trigger] index_entries(self.map).contains_key(y) && x != y implies !(
                bn[x as int].hash == bn[y as int].hash && self.nodes_keys@[x as int]@ == self.nodes_keys@[y as int]@) by {
                assert(index_entries(before.map).contains_key(x));
                assert(index_entries(before.map).contains_key(y));
            }
        }
    }

    /// Queue `p` after `release`.
    proof fn lemma_release_one(a: &Self, b: &Self, idx: usize, p: QueueTypeId)
        requires
            a.inv_with(Some(idx)),
            p != QueueTypeId::NoQueue,
            b.map_removed(a, idx),
        ensures
            queue_wf(b.nodes@, b.head(p), p, b.members(p)),
            weight_sum(b.nodes@, b.members(p)) == b.size(p),
    {
        reveal(CacheShard::inv_with);
        assert(b.queue_kept(a, p));
        assert(queue_wf(a.nodes@, a.head(p), p, a.members(p)));
        Self::lemma_other_queue_kept(a, b, idx, QueueTypeId::NoQueue, p);
    }

    /// `self` is `old` with slot `idx`, which was out of its queue, freed.
    closed spec fn map_removed(&self, old: &Self, idx: usize) -> bool {
        &&& index_entries(self.map) == index_entries(old.map).remove(idx)
        &&& self.nodes_keys == old.nodes_keys
        &&& self.thresholds_of(old)
        &&& self.freelist@ == old.freelist@.push(NodeRef { idx })
        &&& self.nodes@.len() == old.nodes@.len()
        &&& forall|k: int| 0 <= k < old.nodes@.len() && k != idx ==> #[trigger] self.nodes@[k] == old.nodes@[k]
        &&& self.nodes@[idx as int].data@.len() == 0
        &&& self.nodes@[idx as int].queue == QueueTypeId::NoQueue
        &&& self.nodes@[idx as int].hash == old.nodes@[idx as int].hash
        &&& self.others_kept_but(old, QueueTypeId::NoQueue)
    }

    /// Puts slot `idx`, which was out of its queue, into queue `q` as its youngest member.
    #[verifier::spinoff_prover]
    fn attach(&mut self, node_ref: NodeRef, q: QueueTypeId)
        requires
            old(self).inv_with(Some(node_ref.idx)),
            q != QueueTypeId::NoQueue,
            q == QueueTypeId::GhostQueue ==> old(self).nodes@[node_ref.idx as int].data@.len() == 0,
        ensures
            final(self).inv_with(None),
            final(self).attached_to(old(self), node_ref.idx, q),
            final(self).evolved_from(old(self)),
    {
        proof {
            reveal(CacheShard::inv_with);
        }
        let idx = node_ref.idx;
        let w = self.nodes[idx].weight;
        let ghost before = *self;
        let ghost s = self.members(q);
        let mut head = self.queue_head(q);
        let size = self.queue_size(q) + w;
        move_to_queue(node_ref, q, &mut self.nodes, &mut head, Ghost(s));
        self.set_queue(q, head, size, Ghost(s.push(idx)));
        proof {
            Self::lemma_attach_inv(&before, self, idx, q);
        }
    }

    /// `self` is `old` with slot `idx` put into queue `q` as its youngest member.
    closed spec fn attached_to(&self, old: &Self, idx: usize, q: QueueTypeId) -> bool {
        &&& self.map == old.map
        &&& self.nodes_keys == old.nodes_keys
        &&& self.freelist == old.freelist
        &&& self.thresholds_of(old)
        &&& self.nodes@.len() == old.nodes@.len()
        &&& forall|k: int| 0 <= k < old.nodes@.len() ==> same_payload(#[trigger] self.nodes@[k], old.nodes@[k])
        &&& forall|k: int| 0 <= k < old.nodes@.len() && k != idx ==> #[trigger] self.nodes@[k].queue == old.nodes@[k].queue
        &&& self.nodes@[idx as int].queue == q
        &&& self.members(q) == old.members(q).push(idx)
        &&& outside_kept(old.nodes@, self.nodes@, old.members(q).push(idx))
        &&& self.size(q) == old.size(q) + old.nodes@[idx as int].weight
        &&& self.others_kept_but(old, q)
    }

    /// Queue `p` after `attach`.
    proof fn lemma_attach_one(a: &Self, b: &Self, idx: usize, q: QueueTypeId, p: QueueTypeId)
        requires
            a.inv_with(Some(idx)),
            q != QueueTypeId::NoQueue,
            p != QueueTypeId::NoQueue,
            b.attached_to(a, idx, q),
            queue_wf(b.nodes@, b.head(q), q, b.members(q)),
            outside_kept(a.nodes@, b.nodes@, a.members(q).push(idx)),
        ensures
            queue_wf(b.nodes@, b.head(p), p, b.members(p)),
            weight_sum(b.nodes@, b.members(p)) == b.size(p),
    {
        reveal(CacheShard::inv_with);
        let an = a.nodes@;
        let bn = b.nodes@;
        let s = a.members(q);
        if p == q {
            assert forall|m: int| 0 <= m < s.len() implies tally_of(#[trigger] an[s[m] as int], Tally::Weight)
                == tally_of(bn[s[m] as int], Tally::Weight) by {
                assert(same_payload(bn[s[m] as int], an[s[m] as int]));
            }
            lemma_tally_frame(an, bn, s, Tally::Weight);
            lemma_tally_push(bn, s, idx, Tally::Weight);
            assert(same_payload(bn[idx as int], an[idx as int]));
            assert(queue_wf(an, a.head(q), q, s));
        } else {
            assert forall|ku: usize|
                (ku as int) < an.len() && an[ku as int].queue == p implies #[trigger] bn[ku as int] == an[ku as int] by {
                assert(!s.push(idx).contains(ku)) by {
                    if s.push(idx).contains(ku) {
                        let i = choose|i: int| 0 <= i < s.push(idx).len() && s.push(idx)[i] == ku;
                        if i < s.len() {
                            assert(s.push(idx)[i] == s[i]);
                            assert(an[s[i] as int].queue == q);
                        } else {
                            assert(ku == idx);
                        }
                    }
                }
            }
            assert(b.queue_kept(a, p));
            Self::lemma_other_queue_kept(a, b, idx, q, p);
            assert(queue_wf(an, a.head(p), p, a.members(p)));
        }
    }

    #[verifier::spinoff_prover]
    proof fn lemma_attach_inv(a: &Self, b: &Self, idx: usize, q: QueueTypeId)
        requires
            a.inv_with(Some(idx)),
            q != QueueTypeId::NoQueue,
            q == QueueTypeId::GhostQueue ==> a.nodes@[idx as int].data@.len() == 0,
            b.attached_to(a, idx, q),
            queue_wf(b.nodes@, b.head(q), q, b.members(q)),
            outside_kept(a.nodes@, b.nodes@, a.members(q).push(idx)),
        ensures
            b.inv_with(None),
    {
        reveal(CacheShard::inv_with);
        let an = a.nodes@;
        let bn = b.nodes@;
        Self::lemma_attach_one(a, b, idx, q, QueueTypeId::Small);
        Self::lemma_attach_one(a, b, idx, q, QueueTypeId::Main);
        Self::lemma_attach_one(a, b, idx, q, QueueTypeId::GhostQueue);
        assert(same_payload(bn[idx as int], an[idx as int]));
        assert forall|i: int| 0 <= i < b.ghost_members@.len() implies (#[trigger] bn[b.ghost_members@[i] as int]).data@.len() == 0 by {
            let g = b.ghost_members@[i];
            assert(same_payload(bn[g as int], an[g as int]));
            if q == QueueTypeId::GhostQueue && i == a.ghost_members@.len() {
                assert(g == idx);
            } else if q == QueueTypeId::GhostQueue {
                assert(g == a.ghost_members@[i]);
            }
        }
        assert forall|k: int| 0 <= k < bn.len() implies (#[trigger] bn[k]).freq <= 3 by {
            assert(same_payload(bn[k], an[k]));
        }
        assert forall|i: int| 0 <= i < b.freelist@.len() implies {
            let k = (#[trigger] b.freelist@[i]).idx;
            &&& (k as int) < bn.len()
            &&& bn[k as int].queue == QueueTypeId::NoQueue
            &&& None::<usize> != Some(k)
        } by {
            let k = b.freelist@[i].idx;
            assert(an[k as int].queue == QueueTypeId::NoQueue);
        }
        assert forall|k: usize|
            (k as int) < bn.len() && #[trigger] bn[k as int].queue == QueueTypeId::NoQueue implies exists|i: int| 0 <= i < b.freelist@.len() && b.freelist@[i].idx == k by {
            assert(k != idx);
            assert(an[k as int].queue == QueueTypeId::NoQueue);
        }
        assert forall|k: usize|
            #[trigger] index_entries(b.map).contains_key(k) <==> ((k as int) < bn.len() && bn[k as int].queue
                != QueueTypeId::NoQueue) by {
            if (k as int) < bn.len() && k != idx {
                assert(bn[k as int].queue == an[k as int].queue);
            }
        }
        assert forall|k: usize| #[trigger] index_entries(b.map).contains_key(k) implies index_entries(b.map)[k] == bn[k as int].hash by {
            assert(same_payload(bn[k as int], an[k as int]));
        }
        assert forall|x: usize, y: usize|
            #[trigger] index_entries(b.map).contains_key(x) && #[trigger] index_entries(b.map).contains_key(y) && x != y implies !(
            bn[x as int].hash == bn[y as int].hash && b.nodes_keys@[x as int]@ == b.nodes_keys@[y as int]@) by {
            assert(same_payload(bn[x as int], an[x as int]));
            assert(same_payload(bn[y as int], an[y as int]));
        }
    }

    /// All fields but the arena agree.
    closed spec fn same_fields_but_nodes(&self, other: &Self) -> bool {
        &&& self.map == other.map
        &&& self.nodes_keys == other.nodes_keys
        &&& self.freelist == other.freelist
        &&& self.small_size == other.small_size
        &&& self.main_size == other.main_size
        &&& self.ghost_size == other.ghost_size
        &&& self.small_threshold == other.small_threshold
        &&& self.main_threshold == other.main_threshold
        &&& self.ghost_threshold == other.ghost_threshold
        &&& self.small_head == other.small_head
        &&& self.main_head == other.main_head
        &&& self.ghost_head == other.ghost_head
        &&& self.small_members == other.small_members
        &&& self.main_members == other.main_members
        &&& self.ghost_members == other.ghost_members
    }
}

/// A queue keeps its shape and weight when its members are untouched and the same
/// slots carry its tag (the arena may have grown by slots outside the queue).
proof fn lemma_queue_kept(a: Seq<Node>, b: Seq<Node>, head: Option<NodeRef>, q: QueueTypeId, s: Seq<usize>)
    requires
        queue_wf(a, head, q, s),
        a.len() <= b.len(),
        forall|i: int| 0 <= i < s.len() ==> #[trigger] b[s[i] as int] == a[s[i] as int],
        forall|k: int| 0 <= k < b.len() ==> (#[trigger] b[k].queue == q <==> (k < a.len() && a[k].queue == q)),
    ensures
        queue_wf(b, head, q, s),
        weight_sum(b, s) == weight_sum(a, s),
{
    assert forall|i: int| 0 <= i < s.len() implies b[#[trigger] s[i] as int].prev == younger(s, i)
        && b[s[i] as int].next == older(s, i) && b[s[i] as int].queue == q by {
        assert(b[s[i] as int] == a[s[i] as int]);
    }
    assert forall|j: usize| (j as int) < b.len() && #[trigger] b[j as int].queue == q implies s.contains(j) by {
        assert(a[j as int].queue == q);
    }
    assert forall|m: int| 0 <= m < s.len() implies tally_of(#[trigger] a[s[m] as int], Tally::Weight)
        == tally_of(b[s[m] as int], Tally::Weight) by {
        assert(b[s[m] as int] == a[s[m] as int]);
    }
    lemma_tally_frame(a, b, s, Tally::Weight);
}

/// The most slots a shard reserves room for up front.
pub const MAX_RESERVED: usize = 16777216;

} // verus!
