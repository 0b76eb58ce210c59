//! Keys, and the hash index that maps a key's hash to the slot holding it.
use vstd::prelude::*;
use crate::node_list::Node;
use hashbrown::HashTable;

verus! {

/// A key the cache can hold. Two keys are the same key when their views are equal.
pub trait CacheKey: View + Sized {
    fn same_key(&self, other: &Self) -> (r: bool)
        ensures
            r == (self@ == other@),
    ;
}

impl CacheKey for String {
    fn same_key(&self, other: &Self) -> (r: bool) {
        *self == *other
    }
}

impl CacheKey for u64 {
    fn same_key(&self, other: &Self) -> (r: bool) {
        *self == *other
    }
}

impl CacheKey for u32 {
    fn same_key(&self, other: &Self) -> (r: bool) {
        *self == *other
    }
}

impl CacheKey for usize {
    fn same_key(&self, other: &Self) -> (r: bool) {
        *self == *other
    }
}

impl CacheKey for i64 {
    fn same_key(&self, other: &Self) -> (r: bool) {
        *self == *other
    }
}

/// Slot `i` was filled under `hash` and holds `key`.
pub open spec fn slot_holds<K: View>(nodes: Seq<Node>, keys: Seq<K>, i: usize, hash: u64, key: K::V) -> bool {
    &&& (i as int) < nodes.len()
    &&& (i as int) < keys.len()
    &&& nodes[i as int].hash == hash
    &&& keys[i as int]@ == key
}

/// Whether slot `i` was filled under `hash` and holds `key`.
pub fn slot_matches<K: CacheKey>(nodes: &Vec<Node>, keys: &Vec<K>, i: usize, hash: u64, key: &K) -> (r: bool)
    ensures
        r == slot_holds(nodes@, keys@, i, hash, key@),
{
    i < nodes.len() && i < keys.len() && nodes[i].hash == hash && keys[i].same_key(key)
}

/// The hash that slot `i` was filled under.
pub fn stored_hash(nodes: &Vec<Node>, i: usize) -> (r: u64)
    ensures
        (i as int) < nodes@.len() ==> r == nodes@[i as int].hash,
{
    if i < nodes.len() {
        nodes[i].hash
    } else {
        0
    }
}

/// The hash index: a `hashbrown::HashTable` of slot numbers, each filed under the hash
/// of the key that the slot holds.
#[verifier::external_body]
pub struct SlotIndex {
    table: HashTable<usize>,
}

/// The slots that the index holds, each with the hash it is filed under.
pub uninterp spec fn index_entries(t: SlotIndex) -> Map<usize, u64>;

impl SlotIndex {
    /// Relies on `hashbrown::HashTable::new`: a new table is empty.
    #[verifier::external_body]
    pub fn new() -> (r: SlotIndex)
        ensures
            index_entries(r).dom().is_empty(),
    {
        SlotIndex { table: HashTable::new() }
    }

    /// Relies on `hashbrown::HashTable::with_capacity`: a new table is empty. It panics
    /// only when the room for `capacity` entries overflows the address space.
    #[verifier::external_body]
    pub fn with_capacity(capacity: usize) -> (r: SlotIndex)
        requires
            capacity <= usize::MAX / 64,
        ensures
            index_entries(r).dom().is_empty(),
    {
        SlotIndex { table: HashTable::with_capacity(capacity) }
    }

    /// Relies on `hashbrown::HashTable::find`, which calls `eq` on every entry filed under
    /// `hash` (and maybe on others) and returns an entry for which `eq` holds, stopping at
    /// the first: so a slot comes back only if it holds the key under that hash, and none
    /// comes back only if no slot filed under `hash` holds it.
    #[verifier::external_body]
    pub fn find<K: CacheKey>(&self, hash: u64, nodes: &Vec<Node>, keys: &Vec<K>, key: &K) -> (r: Option<usize>)
        ensures
            r matches Some(i) ==> index_entries(*self).contains_key(i) && slot_holds(nodes@, keys@, i, hash, key@),
            r is None ==> forall|i: usize|
                index_entries(*self).contains_key(i) && index_entries(*self)[i] == hash ==> !slot_holds(
                    nodes@,
                    keys@,
                    i,
                    hash,
                    key@,
                ),
    {
        self.table.find(hash, |&i| slot_matches(nodes, keys, i, hash, key)).copied()
    }

    /// Relies on `hashbrown::HashTable::find_entry` and `OccupiedEntry::remove`: the entry
    /// `idx`, filed under `hash`, is found and taken out; no other entry is touched.
    #[verifier::external_body]
    pub fn remove(&mut self, hash: u64, idx: usize)
        requires
            index_entries(*old(self)).contains_key(idx) ==> index_entries(*old(self))[idx] == hash,
        ensures
            index_entries(*final(self)) == index_entries(*old(self)).remove(idx),
    {
        if let Ok(entry) = self.table.find_entry(hash, |&i| i == idx) {
            entry.remove();
        }
    }

    /// Relies on `hashbrown::HashTable::insert_unique`: files `idx` under `hash`. When the
    /// table grows it refiles each entry under the hash that the `hasher` closure gives,
    /// which must be the hash the entry was filed under: here the one stored in its slot.
    #[verifier::external_body]
    pub fn insert(&mut self, hash: u64, idx: usize, nodes: &Vec<Node>)
        requires
            !index_entries(*old(self)).contains_key(idx),
            forall|i: usize|
                #[trigger] index_entries(*old(self)).contains_key(i) ==> (i as int) < nodes@.len()
                    && nodes@[i as int].hash == index_entries(*old(self))[i],
        ensures
            index_entries(*final(self)) == index_entries(*old(self)).insert(idx, hash),
    {
        self.table.insert_unique(hash, idx, |&i| stored_hash(nodes, i));
    }
}

} // verus!
