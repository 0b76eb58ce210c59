//! The public cache: a power-of-two array of locked shards, keys routed by hash,
//! values encoded to bytes at the boundary.
use vstd::prelude::*;
use vstd::rwlock::{RwLock, RwLockPredicate};
use core::hash::{BuildHasher, Hash};
use bincode::error::{DecodeError, EncodeError};
use serde::Serialize;
use serde::de::DeserializeOwned;
use crate::cache_shard::CacheShard;
use crate::node_list::QueueTypeId;
use crate::slot_index::CacheKey;

verus! {

/// Share of a shard's budget that Small may hold, in percent.
pub const SMALL_THRESHOLD_PERCENT: usize = 10;

/// Share of a shard's budget that Main may hold, in percent.
pub const MAIN_THRESHOLD_PERCENT: usize = 90;

/// Share of a shard's budget that Ghost may hold, in percent.
pub const GHOST_THRESHOLD_PERCENT: usize = 60;

/// The smallest budget a shard is given, in bytes.
pub const MIN_SHARD_SIZE: usize = 8192;

/// The most shards a cache has.
pub const MAX_SHARDS: usize = 64;

/// The parallelism the constructors size the shard array for when none is given.
pub const DEFAULT_PARALLELISM: usize = 4;

#[verifier::external_type_specification]
#[verifier::external_body]
pub struct ExEncodeError(EncodeError);

#[verifier::external_type_specification]
#[verifier::external_body]
pub struct ExDecodeError(DecodeError);

/// Computes the weight of an entry from its key and its encoded value.
pub trait Weighter<Key>: Sized {
    /// The weight that `weight` returns: a function of the key and the bytes.
    spec fn spec_weight(&self, key: &Key, val: Seq<u8>) -> u64;

    fn weight(&self, key: &Key, val: &Vec<u8>) -> (r: u64)
        ensures
            r == self.spec_weight(key, val@),
    ;
}

/// Weighs an entry by the length of its encoded value.
#[derive(Debug, Clone, Copy, Default)]
pub struct DefaultWeighter;

impl<Key> Weighter<Key> for DefaultWeighter {
    open spec fn spec_weight(&self, key: &Key, val: Seq<u8>) -> u64 {
        val.len() as u64
    }

    fn weight(&self, key: &Key, val: &Vec<u8>) -> (r: u64) {
        val.len() as u64
    }
}

/// What a cache operation can fail with.
#[derive(Debug)]
pub enum CacheError {
    Decode(DecodeError),
    Encode(EncodeError),
    KeyNotFound,
}

/// The invariant that each shard's lock keeps: the shard is well formed and has the
/// cache's per-shard thresholds.
pub struct ShardInvariant {
    pub small_threshold: u64,
    pub main_threshold: u64,
    pub ghost_threshold: u64,
}

impl<K: CacheKey> RwLockPredicate<CacheShard<K>> for ShardInvariant {
    open spec fn inv(self, v: CacheShard<K>) -> bool {
        &&& v.wf()
        &&& v.threshold(QueueTypeId::Small) == self.small_threshold
        &&& v.threshold(QueueTypeId::Main) == self.main_threshold
        &&& v.threshold(QueueTypeId::GhostQueue) == self.ghost_threshold
    }
}

/// `n` is a power of two.
pub open spec fn is_pow2(n: nat) -> bool
    decreases n,
{
    if n == 1 {
        true
    } else if n == 0 || n % 2 == 1 {
        false
    } else {
        is_pow2(n / 2)
    }
}

/// `2` to the power `k`.
pub open spec fn pow2(k: nat) -> nat
    decreases k,
{
    if k == 0 {
        1
    } else {
        2 * pow2((k - 1) as nat)
    }
}

/// The first power of two from `2^k` up to `2^6 = MAX_SHARDS` that is at least `n`, or
/// `MAX_SHARDS` when none is.
pub open spec fn least_pow2_from(n: nat, k: nat) -> nat
    decreases 6 - k,
{
    if k >= 6 || pow2(k) >= n {
        pow2(k)
    } else {
        least_pow2_from(n, k + 1)
    }
}

/// The last power of two from `2^k` down to 1 that is at most `n`, or 1 when none is.
pub open spec fn greatest_pow2_from(n: nat, k: nat) -> nat
    decreases k,
{
    if k == 0 || pow2(k) <= n {
        pow2(k)
    } else {
        greatest_pow2_from(n, (k - 1) as nat)
    }
}

/// The smallest power of two that is at least `n`, capped at `MAX_SHARDS`.
pub open spec fn pow2_at_least_capped(n: nat) -> nat {
    least_pow2_from(n, 0)
}

/// The largest power of two that is at most `n` (and at least 1), capped at `MAX_SHARDS`.
pub open spec fn pow2_at_most_capped(n: nat) -> nat {
    greatest_pow2_from(n, 6)
}

/// The most shards that a parallelism of `parallelism` asks for: twice it, rounded up to
/// a power of two, and at most `MAX_SHARDS`.
pub open spec fn cpu_shard_cap(parallelism: nat) -> nat {
    pow2_at_least_capped(2 * parallelism)
}

/// The most shards that a budget of `total_size` bytes allows: one per `MIN_SHARD_SIZE`,
/// and at least one.
pub open spec fn size_shard_cap(total_size: nat) -> nat {
    if total_size / (MIN_SHARD_SIZE as nat) >= 1 {
        total_size / (MIN_SHARD_SIZE as nat)
    } else {
        1
    }
}

/// The number of shards for a budget of `total_size` bytes on `parallelism` hardware
/// threads: the largest power of two within both caps.
pub open spec fn calculate_shard_count_spec(total_size: usize, parallelism: usize) -> nat {
    let by_size = size_shard_cap(total_size as nat);
    let by_cpu = cpu_shard_cap(parallelism as nat);
    pow2_at_most_capped(if by_size < by_cpu { by_size } else { by_cpu })
}

/// The smallest power of two that is at least `n`, capped at `MAX_SHARDS`.
fn next_pow2_capped(n: usize) -> (r: usize)
    ensures
        r as nat == pow2_at_least_capped(n as nat),
{
    proof {
        reveal_with_fuel(least_pow2_from, 8);
        reveal_with_fuel(pow2, 8);
    }
    if n <= 1 {
        1
    } else if n <= 2 {
        2
    } else if n <= 4 {
        4
    } else if n <= 8 {
        8
    } else if n <= 16 {
        16
    } else if n <= 32 {
        32
    } else {
        64
    }
}

/// The largest power of two that is at most `n` (and at least 1), capped at `MAX_SHARDS`.
fn prev_pow2_capped(n: usize) -> (r: usize)
    ensures
        r as nat == pow2_at_most_capped(n as nat),
{
    proof {
        reveal_with_fuel(greatest_pow2_from, 8);
        reveal_with_fuel(pow2, 8);
    }
    if n >= 64 {
        64
    } else if n >= 32 {
        32
    } else if n >= 16 {
        16
    } else if n >= 8 {
        8
    } else if n >= 4 {
        4
    } else if n >= 2 {
        2
    } else {
        1
    }
}

/// The number of shards for a budget of `total_size` bytes on `parallelism` hardware
/// threads: the largest power of two that is at most twice the parallelism (rounded up
/// to a power of two), at most `MAX_SHARDS`, and leaves each shard `MIN_SHARD_SIZE`
/// bytes (one shard at least).
pub fn calculate_shard_count(total_size: usize, parallelism: usize) -> (r: usize)
    ensures
        r as nat == calculate_shard_count_spec(total_size, parallelism),
        is_pow2(r as nat),
        1 <= r <= MAX_SHARDS,
        r <= cpu_shard_cap(parallelism as nat),
        r <= size_shard_cap(total_size as nat),
{
    let by_size: usize = if total_size / MIN_SHARD_SIZE >= 1 {
        total_size / MIN_SHARD_SIZE
    } else {
        1
    };
    let doubled: usize = if parallelism >= MAX_SHARDS {
        MAX_SHARDS * 2
    } else {
        2 * parallelism
    };
    let by_cpu = next_pow2_capped(doubled);
    assert(by_cpu as nat == cpu_shard_cap(parallelism as nat) && by_cpu >= 1) by {
        reveal_with_fuel(least_pow2_from, 8);
        reveal_with_fuel(pow2, 8);
    }
    let limit: usize = if by_size < by_cpu {
        by_size
    } else {
        by_cpu
    };
    let r = prev_pow2_capped(limit);
    assert(is_pow2(r as nat) && 1 <= r <= MAX_SHARDS && r <= limit) by {
        reveal_with_fuel(greatest_pow2_from, 8);
        reveal_with_fuel(pow2, 8);
        reveal_with_fuel(is_pow2, 8);
    }
    r
}

/// `part` percent of `whole`, rounded down, computed without overflow.
pub fn percent_of(whole: usize, part: usize) -> (r: u64)
    requires
        part <= 100,
    ensures
        r == (whole as int) * (part as int) / 100,
{
    assert((whole as int) * (part as int) <= (whole as int) * 100) by (nonlinear_arith)
        requires
            part <= 100,
    ;
    let wide = (whole as u128) * (part as u128) / 100;
    assert(wide <= whole) by (nonlinear_arith)
        requires
            wide == (whole as int) * (part as int) / 100,
            part <= 100,
    ;
    wide as u64
}

/// A threshold: the given share of the shard budget, and at least one.
fn threshold_for(per_shard_size: usize, percent: usize) -> (r: u64)
    requires
        percent <= 100,
    ensures
        r == if (per_shard_size as int) * (percent as int) / 100 >= 1 {
            (per_shard_size as int) * (percent as int) / 100
        } else {
            1
        },
{
    let t = percent_of(per_shard_size, percent);
    if t >= 1 {
        t
    } else {
        1
    }
}

/// The shard that a hash routes to: its low bits.
pub fn shard_index(hash: u64, shard_mask: usize) -> (r: usize)
    ensures
        r == (hash as usize) & shard_mask,
        r <= shard_mask,
{
    let h = hash as usize;
    assert(h & shard_mask <= shard_mask) by (bit_vector);
    h & shard_mask
}

/// Relies on `BuildHasher::hash_one`: the hash of `key` under `hasher`. It depends on
/// the builder's seeds, so nothing is stated of it.
#[verifier::external_body]
fn hash_key<Key: Hash, B: BuildHasher>(hasher: &B, key: &Key) -> u64 {
    hasher.hash_one(key)
}

/// Relies on `bincode::serde::encode_to_vec` with bincode's standard configuration.
#[verifier::external_body]
pub fn serialize<T: Serialize>(value: &T) -> Result<Vec<u8>, EncodeError> {
    bincode::serde::encode_to_vec(value, bincode::config::standard())
}

/// The most bytes that decoding one value may claim for the containers it builds.
pub const MAX_DECODED_SIZE: usize = 2147483648;

/// Relies on `bincode::serde::decode_from_slice` with bincode's standard configuration
/// limited to `MAX_DECODED_SIZE` claimed bytes: a length prefix that claims more is
/// refused with `DecodeError::LimitExceeded` before anything is allocated.
#[verifier::external_body]
pub fn deserialize<T: DeserializeOwned>(bytes: &[u8]) -> Result<T, DecodeError> {
    let config = bincode::config::standard().with_limit::<MAX_DECODED_SIZE>();
    bincode::serde::decode_from_slice::<T, _>(bytes, config).map(|(res, _)| res)
}

/// Relies on `ahash::RandomState::new`: a hasher builder with fresh random seeds.
#[verifier::external_body]
fn new_random_state() -> ahash::RandomState {
    ahash::RandomState::new()
}

#[verifier::external_type_specification]
#[verifier::external_body]
pub struct ExRandomState(ahash::RandomState);

/// The cache: shards behind their own locks, each holding the keys whose hash routes to it.
pub struct AlsoCache<Key: CacheKey, We, B> {
    shards: Vec<RwLock<CacheShard<Key>, ShardInvariant>>,
    shard_mask: usize,
    small_threshold: u64,
    main_threshold: u64,
    ghost_threshold: u64,
    weighter: We,
    hasher: B,
}

impl<Key: CacheKey + Hash, We: Weighter<Key>, B: BuildHasher> AlsoCache<Key, We, B> {
    /// The shard array has a power-of-two length that the mask addresses, and every lock
    /// keeps the shard invariant with the cache's thresholds.
    pub closed spec fn wf(&self) -> bool {
        &&& self.shards@.len() == self.shard_mask + 1
        &&& is_pow2(self.shards@.len() as nat)
        &&& forall|i: int|
            0 <= i < self.shards@.len() ==> (#[trigger] self.shards@[i]).pred() == ShardInvariant {
                small_threshold: self.small_threshold,
                main_threshold: self.main_threshold,
                ghost_threshold: self.ghost_threshold,
            }
    }

    /// The number of shards.
    pub closed spec fn spec_shard_count(&self) -> nat {
        self.shards@.len()
    }

    /// The weighter the cache weighs entries with.
    pub closed spec fn spec_weighter(&self) -> We {
        self.weighter
    }

    /// The per-shard thresholds of Small, Main and Ghost.
    pub closed spec fn spec_thresholds(&self) -> (u64, u64, u64) {
        (self.small_threshold, self.main_threshold, self.ghost_threshold)
    }

    /// A cache of `size` bytes sized for `DEFAULT_PARALLELISM` hardware threads.
    pub fn with(size: usize, weighter: We, hasher: B) -> (r: Self)
        ensures
            r.wf(),
            r.spec_shard_count() == calculate_shard_count_spec(size, DEFAULT_PARALLELISM),
            r.spec_thresholds() == per_shard_thresholds(size, DEFAULT_PARALLELISM),
    {
        Self::with_parallelism(size, DEFAULT_PARALLELISM, weighter, hasher)
    }

    /// Like `with`, with room reserved for about `estimated_items_count` entries in all.
    pub fn with_estimated_count(estimated_items_count: usize, size: usize, weighter: We, hasher: B) -> (r: Self)
        ensures
            r.wf(),
            r.spec_shard_count() == calculate_shard_count_spec(size, DEFAULT_PARALLELISM),
            r.spec_thresholds() == per_shard_thresholds(size, DEFAULT_PARALLELISM),
    {
        Self::build(size, DEFAULT_PARALLELISM, Some(estimated_items_count), weighter, hasher)
    }

    /// A cache of `size` bytes whose shard array is sized for `parallelism` hardware
    /// threads: the largest power of two within twice that (rounded up to a power of
    /// two, at most `MAX_SHARDS`) and within one shard per `MIN_SHARD_SIZE` bytes.
    /// Each shard gets `size / shards` bytes, split by the threshold percentages.
    pub fn with_parallelism(size: usize, parallelism: usize, weighter: We, hasher: B) -> (r: Self)
        ensures
            r.wf(),
            r.spec_shard_count() == calculate_shard_count_spec(size, parallelism),
            r.spec_thresholds() == per_shard_thresholds(size, parallelism),
    {
        Self::build(size, parallelism, None, weighter, hasher)
    }

    /// Like `with_parallelism`, with room reserved for about `estimated_items_count`
    /// entries in all.
    pub fn with_estimated_count_and_parallelism(
        estimated_items_count: usize,
        size: usize,
        parallelism: usize,
        weighter: We,
        hasher: B,
    ) -> (r: Self)
        ensures
            r.wf(),
            r.spec_shard_count() == calculate_shard_count_spec(size, parallelism),
            r.spec_thresholds() == per_shard_thresholds(size, parallelism),
    {
        Self::build(size, parallelism, Some(estimated_items_count), weighter, hasher)
    }

    fn build(size: usize, parallelism: usize, estimated_items_count: Option<usize>, weighter: We, hasher: B) -> (r: Self)
        ensures
            r.wf(),
            r.spec_shard_count() == calculate_shard_count_spec(size, parallelism),
            r.spec_thresholds() == per_shard_thresholds(size, parallelism),
    {
        let shard_count = calculate_shard_count(size, parallelism);
        let per_shard_size = size / shard_count;
        let small_threshold = threshold_for(per_shard_size, SMALL_THRESHOLD_PERCENT);
        let main_threshold = threshold_for(per_shard_size, MAIN_THRESHOLD_PERCENT);
        let ghost_threshold = threshold_for(per_shard_size, GHOST_THRESHOLD_PERCENT);
        let ghost pred = ShardInvariant { small_threshold, main_threshold, ghost_threshold };
        let mut shards: Vec<RwLock<CacheShard<Key>, ShardInvariant>> = Vec::new();
        let mut i: usize = 0;
        while i < shard_count
            invariant
                i <= shard_count,
                shards@.len() == i,
                pred == (ShardInvariant { small_threshold, main_threshold, ghost_threshold }),
                forall|k: int| 0 <= k < shards@.len() ==> (#[trigger] shards@[k]).pred() == pred,
            decreases shard_count - i,
        {
            let shard = match estimated_items_count {
                Some(n) => CacheShard::with_estimated_count(
                    n / shard_count,
                    small_threshold,
                    main_threshold,
                    ghost_threshold,
                ),
                None => CacheShard::new(small_threshold, main_threshold, ghost_threshold),
            };
            shards.push(RwLock::new(shard, Ghost(pred)));
            i = i + 1;
        }
        AlsoCache {
            shards,
            shard_mask: shard_count - 1,
            small_threshold,
            main_threshold,
            ghost_threshold,
            weighter,
            hasher,
        }
    }

    /// Reads `key`: a hit counts as an access in its shard. `KeyNotFound` when the key is
    /// absent or only a ghost entry; `Decode` when the stored bytes do not decode as `V`
    /// (the entry stays).
    pub fn get<V: DeserializeOwned>(&self, key: &Key) -> (r: Result<V, CacheError>)
        requires
            self.wf(),
        ensures
            !(r matches Err(CacheError::Encode(_))),
    {
        let hash = hash_key(&self.hasher, key);
        let idx = shard_index(hash, self.shard_mask);
        let (mut shard, handle) = self.shards[idx].acquire_write();
        let found = shard.get_bytes(hash, key);
        handle.release_write(shard);
        match found {
            None => Err(CacheError::KeyNotFound),
            Some(bytes) => match deserialize(bytes.as_slice()) {
                Ok(v) => Ok(v),
                Err(e) => Err(CacheError::Decode(e)),
            },
        }
    }

    /// Encodes `val`, weighs it and inserts it under `key` in the key's shard. An encoding
    /// failure is returned before any shard is touched. A value whose weight cannot be
    /// added to the shard's thresholds within 64 bits is never admitted.
    pub fn insert<V: Serialize>(&self, key: Key, val: &V) -> (r: Result<(), CacheError>)
        requires
            self.wf(),
        ensures
            r is Ok || r matches Err(CacheError::Encode(_)),
    {
        let bytes = match serialize(val) {
            Ok(b) => b,
            Err(e) => return Err(CacheError::Encode(e)),
        };
        let _ = self.insert_encoded(key, bytes);
        Ok(())
    }

    /// Weighs encoded `bytes` and writes them under `key` in the key's shard. Returns
    /// whether the write reached the shard: it does not when the weight added to the
    /// per-shard thresholds would overflow the 64-bit size counters, and then nothing
    /// changes.
    pub fn insert_encoded(&self, key: Key, bytes: Vec<u8>) -> (r: bool)
        requires
            self.wf(),
        ensures
            r == (self.spec_weighter().spec_weight(&key, bytes@) + self.spec_thresholds().0 + self.spec_thresholds().1
                + self.spec_thresholds().2 <= u64::MAX),
    {
        let weight = self.weighter.weight(&key, &bytes);
        if !self.can_account(weight) {
            return false;
        }
        let hash = hash_key(&self.hasher, &key);
        let idx = shard_index(hash, self.shard_mask);
        let (mut shard, handle) = self.shards[idx].acquire_write();
        shard.insert_bytes(hash, key, weight, bytes);
        handle.release_write(shard);
        true
    }

    /// Whether a weight added to the per-shard thresholds fits in 64 bits.
    fn can_account(&self, weight: u64) -> (r: bool)
        ensures
            r == (weight + self.small_threshold + self.main_threshold + self.ghost_threshold <= u64::MAX),
    {
        weight <= u64::MAX - self.small_threshold && weight + self.small_threshold <= u64::MAX
            - self.main_threshold && weight + self.small_threshold + self.main_threshold <= u64::MAX
            - self.ghost_threshold
    }

    /// Removes `key` from its shard. Returns whether it was there.
    pub fn delete(&self, key: &Key) -> (r: bool)
        requires
            self.wf(),
    {
        let hash = hash_key(&self.hasher, key);
        let idx = shard_index(hash, self.shard_mask);
        let (mut shard, handle) = self.shards[idx].acquire_write();
        let deleted = shard.delete(hash, key);
        handle.release_write(shard);
        deleted
    }

    /// The number of shards.
    pub fn shard_count(&self) -> (r: usize)
        ensures
            r == self.spec_shard_count(),
    {
        self.shards.len()
    }

    /// The sizes of Small, Main and Ghost in shard `i`.
    pub fn shard_sizes(&self, i: usize) -> (r: (u64, u64, u64))
        requires
            self.wf(),
            i < self.spec_shard_count(),
        ensures
            r.0 <= self.spec_thresholds().0,
            r.1 <= self.spec_thresholds().1,
            r.2 <= self.spec_thresholds().2,
    {
        let (shard, handle) = self.shards[i].acquire_write();
        let sizes = (shard.get_small_size(), shard.get_main_size(), shard.get_ghost_size());
        proof {
            shard.lemma_queue_shape(QueueTypeId::Small);
            shard.lemma_queue_shape(QueueTypeId::Main);
            shard.lemma_queue_shape(QueueTypeId::GhostQueue);
        }
        handle.release_write(shard);
        sizes
    }

    /// The summed sizes of Small, Main and Ghost over all shards (each sum saturating at
    /// `u64::MAX`), and the number of shards that hold anything.
    pub fn get_utilization_stats(&self) -> (r: (u64, u64, u64, usize))
        requires
            self.wf(),
        ensures
            r.3 <= self.spec_shard_count(),
    {
        let mut total_small: u64 = 0;
        let mut total_main: u64 = 0;
        let mut total_ghost: u64 = 0;
        let mut non_empty_shards: usize = 0;
        let mut i: usize = 0;
        while i < self.shards.len()
            invariant
                self.wf(),
                i <= self.shards@.len(),
                non_empty_shards <= i,
            decreases self.shards@.len() - i,
        {
            let (small, main, ghost) = self.shard_sizes(i);
            total_small = total_small.saturating_add(small);
            total_main = total_main.saturating_add(main);
            total_ghost = total_ghost.saturating_add(ghost);
            if small > 0 || main > 0 || ghost > 0 {
                non_empty_shards = non_empty_shards + 1;
            }
            i = i + 1;
        }
        (total_small, total_main, total_ghost, non_empty_shards)
    }

    /// Up to `limit` slots of queue `q` in shard `i`, from its head along `next`.
    pub fn shard_queue_slots(&self, i: usize, q: QueueTypeId, limit: usize) -> (r: Vec<usize>)
        requires
            self.wf(),
            i < self.spec_shard_count(),
        ensures
            r@.len() <= limit,
    {
        let (shard, handle) = self.shards[i].acquire_write();
        let slots = shard.queue_slots(q, limit);
        handle.release_write(shard);
        slots
    }
}

impl<Key: CacheKey + Hash> AlsoCache<Key, DefaultWeighter, ahash::RandomState> {
    /// A cache of `size` bytes with the default weighter and a randomly seeded hasher.
    pub fn default(size: usize) -> (r: Self)
        ensures
            r.wf(),
            r.spec_shard_count() == calculate_shard_count_spec(size, DEFAULT_PARALLELISM),
            r.spec_thresholds() == per_shard_thresholds(size, DEFAULT_PARALLELISM),
    {
        AlsoCache::with(size, DefaultWeighter, new_random_state())
    }

    /// Like `default`, with room reserved for about `estimated_items_count` entries.
    pub fn default_with_estimated_count(estimated_items_count: usize, size: usize) -> (r: Self)
        ensures
            r.wf(),
            r.spec_shard_count() == calculate_shard_count_spec(size, DEFAULT_PARALLELISM),
            r.spec_thresholds() == per_shard_thresholds(size, DEFAULT_PARALLELISM),
    {
        AlsoCache::with_estimated_count(estimated_items_count, size, DefaultWeighter, new_random_state())
    }
}

/// The per-shard thresholds for a cache of `size` bytes on `parallelism` threads.
pub open spec fn per_shard_thresholds(size: usize, parallelism: usize) -> (u64, u64, u64) {
    let per = (size as nat) / calculate_shard_count_spec(size, parallelism);
    (
        pct_threshold(per, SMALL_THRESHOLD_PERCENT as nat),
        pct_threshold(per, MAIN_THRESHOLD_PERCENT as nat),
        pct_threshold(per, GHOST_THRESHOLD_PERCENT as nat),
    )
}

/// `percent` of `per`, rounded down, and at least one.
pub open spec fn pct_threshold(per: nat, percent: nat) -> u64 {
    if per * percent / 100 >= 1 {
        (per * percent / 100) as u64
    } else {
        1
    }
}

} // verus!
