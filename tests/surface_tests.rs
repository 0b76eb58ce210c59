use also_cache::cache::{calculate_shard_count, percent_of, shard_index, AlsoCache, CacheError, DefaultWeighter, Weighter};
use serde::ser::{Serialize, SerializeSeq, Serializer};
use std::collections::hash_map::RandomState;

struct UnsizedSeq;

impl Serialize for UnsizedSeq {
    fn serialize<S: Serializer>(&self, serializer: S) -> Result<S::Ok, S::Error> {
        let mut seq = serializer.serialize_seq(None)?;
        seq.serialize_element(&1u8)?;
        seq.end()
    }
}

#[test]
fn shard_count_follows_budget_and_parallelism() {
    assert_eq!(calculate_shard_count(2000, 4), 1);
    assert_eq!(calculate_shard_count(8192 * 3, 16), 2);
    assert_eq!(calculate_shard_count(8192 * 64, 4), 8);
    assert_eq!(calculate_shard_count(8192 * 64, 3), 8);
    assert_eq!(calculate_shard_count(1 << 40, 1000), 64);
    assert_eq!(calculate_shard_count(0, 0), 1);
}

#[test]
fn percentages_round_down() {
    assert_eq!(percent_of(2000, 10), 200);
    assert_eq!(percent_of(2000, 60), 1200);
    assert_eq!(percent_of(999, 90), 899);
    assert_eq!(percent_of(usize::MAX, 100), usize::MAX as u64);
}

#[test]
fn routing_uses_low_bits() {
    assert_eq!(shard_index(0xff, 7), 7);
    assert_eq!(shard_index(0x10, 7), 0);
    assert_eq!(shard_index(12345, 0), 0);
}

#[test]
fn default_weighter_is_length() {
    let w = DefaultWeighter;
    assert_eq!(Weighter::<u64>::weight(&w, &1, &vec![1, 2, 3]), 3);
}

#[test]
fn small_budget_has_one_shard_with_ratio_thresholds() {
    let cache: AlsoCache<String, DefaultWeighter, ahash::RandomState> = AlsoCache::default(2000);
    assert_eq!(cache.shard_count(), 1);
    assert_eq!(cache.get_utilization_stats(), (0, 0, 0, 0));
}

#[test]
fn u64_keys_with_std_hasher() {
    let cache = AlsoCache::with(100, DefaultWeighter, RandomState::default());
    cache.insert(1u64, &"1".to_string()).unwrap();
    cache.insert(54u64, &"54".to_string()).unwrap();
    cache.insert(1000u64, &"1000".to_string()).unwrap();
    assert_eq!(cache.get::<String>(&1000).unwrap(), "1000");
}

#[test]
fn decode_failure_is_reported_and_entry_stays() {
    let cache: AlsoCache<String, DefaultWeighter, ahash::RandomState> = AlsoCache::default(2000);
    cache.insert("b".to_string(), &5u8).unwrap();
    let r: Result<bool, CacheError> = cache.get(&"b".to_string());
    assert!(matches!(r, Err(CacheError::Decode(_))));
    assert_eq!(cache.get::<u8>(&"b".to_string()).unwrap(), 5);
}

#[test]
fn encode_failure_is_reported_and_cache_unchanged() {
    let cache: AlsoCache<String, DefaultWeighter, ahash::RandomState> = AlsoCache::default(2000);
    let r = cache.insert("e".to_string(), &UnsizedSeq);
    assert!(matches!(r, Err(CacheError::Encode(_))));
    assert!(matches!(cache.get::<u8>(&"e".to_string()), Err(CacheError::KeyNotFound)));
    assert_eq!(cache.get_utilization_stats(), (0, 0, 0, 0));
}

#[test]
fn many_shards_route_consistently() {
    let cache: AlsoCache<u64, DefaultWeighter, ahash::RandomState> =
        AlsoCache::with_parallelism(8192 * 64, 8, DefaultWeighter, ahash::RandomState::new());
    assert_eq!(cache.shard_count(), 16);
    for i in 0..200u64 {
        cache.insert(i, &i).unwrap();
    }
    for i in 0..200u64 {
        assert_eq!(cache.get::<u64>(&i).unwrap(), i);
    }
    assert!(cache.delete(&7));
    assert!(!cache.delete(&7));
}

#[test]
fn interleaved_use_keeps_thresholds() {
    let cache: AlsoCache<u64, DefaultWeighter, ahash::RandomState> =
        AlsoCache::default_with_estimated_count(1000, 8192 * 8);
    for t in 0..8u64 {
        for i in 0..2000u64 {
            let k = t * 100_000 + (i % 300);
            if i % 2 == 0 {
                cache.insert(k, &i).unwrap();
            } else {
                let _ = cache.get::<u64>(&k);
            }
        }
    }
    let n = cache.shard_count();
    for i in 0..n {
        let (small, main, ghost) = cache.shard_sizes(i);
        assert!(small <= (8192 * 8 / n as u64) / 10);
        assert!(main <= (8192 * 8 / n as u64) * 9 / 10);
        assert!(ghost <= (8192 * 8 / n as u64) * 6 / 10);
    }
}

#[test]
fn unit_value_encodes_to_nothing_and_reads_as_miss() {
    let cache: AlsoCache<String, DefaultWeighter, ahash::RandomState> = AlsoCache::default(2000);
    cache.insert("u".to_string(), &()).unwrap();
    assert!(matches!(cache.get::<()>(&"u".to_string()), Err(CacheError::KeyNotFound)));
    assert!(cache.delete(&"u".to_string()));
}

#[test]
fn huge_length_prefix_is_a_decode_error() {
    let cache: AlsoCache<String, DefaultWeighter, ahash::RandomState> = AlsoCache::default(2000);
    cache.insert("k".to_string(), &u64::MAX).unwrap();
    let r: Result<String, CacheError> = cache.get(&"k".to_string());
    assert!(matches!(r, Err(CacheError::Decode(_))));
}
