use also_cache::cache_shard::CacheShard;
use also_cache::cache_nodes_arena::NodeArena;
use also_cache::node_list::QueueTypeId;

fn bytes(n: usize, fill: u8) -> Vec<u8> {
    vec![fill; n]
}

fn shard_for_budget(budget: u64) -> CacheShard<String> {
    CacheShard::new(budget / 10, budget * 9 / 10, budget * 6 / 10)
}

fn key(s: &str) -> String {
    s.to_string()
}

#[test]
fn insert_then_get_returns_value() {
    let mut shard = shard_for_budget(1000);
    shard.insert_bytes(7, key("a"), 5, bytes(5, 1));
    assert_eq!(shard.get_bytes(7, &key("a")), Some(bytes(5, 1)));
    assert_eq!(shard.get_small_size(), 5);
}

#[test]
fn get_of_absent_key_is_none() {
    let mut shard = shard_for_budget(1000);
    assert_eq!(shard.get_bytes(1, &key("missing")), None);
}

#[test]
fn insert_delete_get_is_none() {
    let mut shard = shard_for_budget(1000);
    shard.insert_bytes(3, key("a"), 5, bytes(5, 2));
    assert!(shard.delete(3, &key("a")));
    assert_eq!(shard.get_bytes(3, &key("a")), None);
    assert_eq!(shard.get_small_size(), 0);
}

#[test]
fn delete_absent_changes_nothing() {
    let mut shard = shard_for_budget(1000);
    shard.insert_bytes(3, key("a"), 5, bytes(5, 2));
    let before = (shard.get_small_size(), shard.get_main_size(), shard.get_ghost_size());
    let slots_before = shard.queue_slots(QueueTypeId::Small, 10);
    assert!(!shard.delete(4, &key("b")));
    assert_eq!(before, (shard.get_small_size(), shard.get_main_size(), shard.get_ghost_size()));
    assert_eq!(slots_before, shard.queue_slots(QueueTypeId::Small, 10));
    assert_eq!(shard.get_bytes(3, &key("a")), Some(bytes(5, 2)));
}

#[test]
fn delete_twice_second_is_false() {
    let mut shard = shard_for_budget(1000);
    shard.insert_bytes(3, key("a"), 5, bytes(5, 2));
    assert!(shard.delete(3, &key("a")));
    assert!(!shard.delete(3, &key("a")));
}

#[test]
fn same_key_under_other_hash_is_another_entry() {
    let mut shard = shard_for_budget(1000);
    shard.insert_bytes(3, key("a"), 5, bytes(5, 2));
    assert_eq!(shard.get_bytes(4, &key("a")), None);
}

#[test]
fn repeated_gets_keep_queues() {
    let mut shard = shard_for_budget(1000);
    shard.insert_bytes(1, key("a"), 10, bytes(10, 1));
    shard.insert_bytes(2, key("b"), 10, bytes(10, 2));
    let small = shard.queue_slots(QueueTypeId::Small, 10);
    for _ in 0..5 {
        assert_eq!(shard.get_bytes(1, &key("a")), Some(bytes(10, 1)));
    }
    assert_eq!(small, shard.queue_slots(QueueTypeId::Small, 10));
    assert_eq!(shard.get_small_size(), 20);
}

#[test]
fn reinsert_keeps_slot_and_updates_size() {
    let mut shard = shard_for_budget(1000);
    shard.insert_bytes(1, key("a"), 10, bytes(10, 1));
    let slots = shard.queue_slots(QueueTypeId::Small, 10);
    shard.insert_bytes(1, key("a"), 30, bytes(30, 9));
    assert_eq!(slots, shard.queue_slots(QueueTypeId::Small, 10));
    assert_eq!(shard.get_small_size(), 30);
    assert_eq!(shard.get_bytes(1, &key("a")), Some(bytes(30, 9)));
    shard.insert_bytes(1, key("a"), 4, bytes(4, 3));
    assert_eq!(shard.get_small_size(), 4);
}

#[test]
fn three_inserts_over_small_leave_a_ghost() {
    // budget 100: Small 10, Main 90, Ghost 60
    let mut shard = shard_for_budget(100);
    shard.insert_bytes(1, key("k1"), 40, bytes(40, 1));
    shard.insert_bytes(2, key("k2"), 40, bytes(40, 2));
    shard.insert_bytes(3, key("k3"), 40, bytes(40, 3));
    assert!(shard.get_small_size() <= 10);
    assert_eq!(shard.get_small_size(), 0);
    assert_eq!(shard.get_ghost_size(), 40);
    assert_eq!(shard.queue_slots(QueueTypeId::GhostQueue, 10).len(), 1);
    assert_eq!(shard.get_bytes(1, &key("k1")), None);
    assert_eq!(shard.get_bytes(3, &key("k3")), None);
}

#[test]
fn read_entry_is_promoted_to_main() {
    // budget 1000: Small 100, Main 900, Ghost 600
    let mut shard = shard_for_budget(1000);
    shard.insert_bytes(100, key("k1"), 100, bytes(100, 7));
    for _ in 0..3 {
        assert_eq!(shard.get_bytes(100, &key("k1")), Some(bytes(100, 7)));
    }
    for i in 0..20u64 {
        shard.insert_bytes(i, format!("other_{}", i), 100, bytes(100, 1));
    }
    assert_eq!(shard.get_bytes(100, &key("k1")), Some(bytes(100, 7)));
    assert!(shard.get_main_size() >= 100);
    assert!(shard.get_small_size() <= 100);
    assert!(shard.get_main_size() <= 900);
    assert!(shard.get_ghost_size() <= 600);
}

#[test]
fn value_over_small_threshold_is_recorded_as_ghost_then_promoted() {
    // budget 200: Small 20, Main 180, Ghost 120
    let mut shard = shard_for_budget(200);
    shard.insert_bytes(9, key("k1"), 100, bytes(100, 4));
    assert_eq!(shard.get_small_size(), 0);
    assert_eq!(shard.get_ghost_size(), 100);
    assert_eq!(shard.get_bytes(9, &key("k1")), None);
    shard.insert_bytes(9, key("k1"), 100, bytes(100, 5));
    assert_eq!(shard.get_ghost_size(), 0);
    assert_eq!(shard.get_main_size(), 100);
    assert_eq!(shard.get_bytes(9, &key("k1")), Some(bytes(100, 5)));
}

#[test]
fn value_over_ghost_threshold_is_dropped() {
    // budget 200: Small 20, Main 180, Ghost 120
    let mut shard = shard_for_budget(200);
    shard.insert_bytes(9, key("k1"), 150, bytes(150, 4));
    assert_eq!(shard.get_ghost_size(), 0);
    assert_eq!(shard.get_small_size(), 0);
    assert!(!shard.delete(9, &key("k1")));
}

#[test]
fn value_as_large_as_budget_clears_small_and_ghost() {
    let mut shard = shard_for_budget(1000);
    shard.insert_bytes(1, key("a"), 50, bytes(50, 1));
    shard.insert_bytes(2, key("b"), 40, bytes(40, 2));
    shard.insert_bytes(3, key("big"), 1000, bytes(1000, 3));
    assert_eq!(shard.get_small_size(), 0);
    assert_eq!(shard.get_ghost_size(), 0);
    assert_eq!(shard.get_main_size(), 0);
    assert_eq!(shard.get_bytes(1, &key("a")), None);
    assert_eq!(shard.get_bytes(2, &key("b")), None);
    assert!(!shard.delete(1, &key("a")));
    assert!(!shard.delete(2, &key("b")));
}

#[test]
fn main_gives_second_chance_before_freeing() {
    // Small 1, Main 2, Ghost 1
    let mut shard: CacheShard<u64> = CacheShard::new(1, 2, 1);
    shard.insert_bytes(1, 1, 1, vec![1]);
    shard.get_bytes(1, &1);
    shard.insert_bytes(2, 2, 1, vec![2]);
    shard.get_bytes(2, &2);
    shard.insert_bytes(3, 3, 1, vec![3]);
    shard.get_bytes(3, &3);
    shard.insert_bytes(4, 4, 1, vec![4]);
    assert!(shard.get_main_size() <= 2);
    assert!(shard.get_small_size() <= 1);
}

#[test]
fn ghost_entry_can_be_deleted() {
    let mut shard = shard_for_budget(200);
    shard.insert_bytes(9, key("k1"), 100, bytes(100, 4));
    assert_eq!(shard.get_ghost_size(), 100);
    assert!(shard.delete(9, &key("k1")));
    assert_eq!(shard.get_ghost_size(), 0);
}

#[test]
fn freed_slots_are_reused() {
    let mut shard = shard_for_budget(1000);
    shard.insert_bytes(1, key("a"), 5, bytes(5, 1));
    assert!(shard.delete(1, &key("a")));
    shard.insert_bytes(2, key("b"), 5, bytes(5, 2));
    assert_eq!(shard.queue_slots(QueueTypeId::Small, 10), vec![0]);
    assert_eq!(shard.get_bytes(2, &key("b")), Some(bytes(5, 2)));
}

#[test]
fn queue_walk_starts_at_head_then_youngest() {
    let mut shard = shard_for_budget(1000);
    shard.insert_bytes(1, key("a"), 1, bytes(1, 1));
    shard.insert_bytes(2, key("b"), 1, bytes(1, 2));
    shard.insert_bytes(3, key("c"), 1, bytes(1, 3));
    assert_eq!(shard.queue_slots(QueueTypeId::Small, 10), vec![0, 2, 1]);
    assert_eq!(shard.queue_slots(QueueTypeId::Small, 2), vec![0, 2]);
    assert_eq!(shard.queue_slots(QueueTypeId::Main, 10), Vec::<usize>::new());
}

#[test]
fn many_small_entries_stay_within_thresholds() {
    let mut shard = shard_for_budget(1000);
    for i in 0..1000u64 {
        shard.insert_bytes(i % 97, format!("k{}", i), 5, bytes(5, (i % 251) as u8));
        if i % 3 == 0 {
            shard.get_bytes((i / 2) % 97, &format!("k{}", i / 2));
        }
        assert!(shard.get_small_size() <= 100);
        assert!(shard.get_main_size() <= 900);
        assert!(shard.get_ghost_size() <= 600);
    }
}

#[test]
fn arena_name_is_the_shard() {
    let mut arena: NodeArena<u64> = NodeArena::with_estimated_count(16, 10, 90, 60);
    arena.insert_bytes(5, 5, 3, vec![1, 2, 3]);
    assert_eq!(arena.get_bytes(5, &5), Some(vec![1, 2, 3]));
}

#[test]
fn empty_value_is_kept_but_reads_as_miss() {
    let mut shard = shard_for_budget(1000);
    shard.insert_bytes(5, key("e"), 0, Vec::new());
    assert_eq!(shard.get_bytes(5, &key("e")), None);
    assert_eq!(shard.queue_slots(QueueTypeId::Small, 10).len(), 1);
    assert!(shard.delete(5, &key("e")));
    assert!(!shard.delete(5, &key("e")));
}

#[test]
fn read_entry_moves_to_main_with_exact_sizes() {
    // budget 1000: Small 100, Main 900, Ghost 600
    let mut shard = shard_for_budget(1000);
    shard.insert_bytes(1, key("k1"), 100, bytes(100, 1));
    for _ in 0..3 {
        shard.get_bytes(1, &key("k1"));
    }
    shard.insert_bytes(2, key("k2"), 100, bytes(100, 2));
    assert_eq!(shard.get_main_size(), 100);
    assert_eq!(shard.get_small_size(), 100);
    assert_eq!(shard.get_ghost_size(), 0);
    assert_eq!(shard.queue_slots(QueueTypeId::Main, 10), vec![0]);
    assert_eq!(shard.queue_slots(QueueTypeId::Small, 10), vec![1]);
}

#[test]
fn three_inserts_leave_main_empty() {
    let mut shard = shard_for_budget(100);
    shard.insert_bytes(1, key("k1"), 40, bytes(40, 1));
    shard.insert_bytes(2, key("k2"), 40, bytes(40, 2));
    shard.insert_bytes(3, key("k3"), 40, bytes(40, 3));
    assert_eq!(shard.get_main_size(), 0);
    assert_eq!(shard.get_ghost_size(), 40);
}

#[test]
fn fitting_new_key_survives_small_overflow() {
    let mut shard = shard_for_budget(1000);
    shard.insert_bytes(1, key("a"), 60, bytes(60, 1));
    shard.insert_bytes(2, key("b"), 60, bytes(60, 2));
    assert_eq!(shard.get_small_size(), 60);
    assert_eq!(shard.get_ghost_size(), 60);
    assert_eq!(shard.get_bytes(2, &key("b")), Some(bytes(60, 2)));
    assert_eq!(shard.get_bytes(1, &key("a")), None);
}

#[test]
fn reinserted_ghost_moves_to_main() {
    let mut shard = shard_for_budget(1000);
    shard.insert_bytes(1, key("a"), 60, bytes(60, 1));
    shard.insert_bytes(2, key("b"), 60, bytes(60, 2));
    shard.insert_bytes(1, key("a"), 30, bytes(30, 9));
    assert_eq!(shard.get_ghost_size(), 0);
    assert_eq!(shard.get_main_size(), 30);
    assert_eq!(shard.get_bytes(1, &key("a")), Some(bytes(30, 9)));
}
