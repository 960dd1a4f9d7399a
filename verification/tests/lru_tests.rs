use lru_sim::lru::{is_power_of_two, CacheHit, MainMemory};

fn counting_memory() -> [u8; 256] {
    let mut data = [0u8; 256];
    for (i, b) in data.iter_mut().enumerate() {
        *b = i as u8;
    }
    data
}

#[test]
fn power_of_two_sizes() {
    assert!(is_power_of_two(2));
    assert!(is_power_of_two(256));
    assert!(is_power_of_two(1 << 40));
    assert!(!is_power_of_two(1));
    assert!(!is_power_of_two(0));
    assert!(!is_power_of_two(6));
    assert!(!is_power_of_two(usize::MAX));
}

#[test]
fn repeated_lookup_hits() {
    let memory = MainMemory::<256, 4>::new(counting_memory());
    let mut cache = memory.create_cache::<8, 4>();
    let (line, hit) = cache.get(5);
    assert_eq!(line, [4, 5, 6, 7]);
    assert_eq!(hit, CacheHit::Miss);
    let (line, hit) = cache.get(6);
    assert_eq!(line, [4, 5, 6, 7]);
    assert_eq!(hit, CacheHit::Hit);
}

#[test]
fn lines_past_the_memory_read_as_zero() {
    let memory = MainMemory::<256, 4>::new(counting_memory());
    let mut cache = memory.create_cache::<8, 4>();
    let (line, hit) = cache.get(255);
    assert_eq!(line, [252, 253, 254, 255]);
    assert_eq!(hit, CacheHit::Miss);
    let (line, _) = cache.get(1000);
    assert_eq!(line, [0, 0, 0, 0]);
    let (line, _) = cache.get(usize::MAX);
    assert_eq!(line, [0, 0, 0, 0]);
}

/// Addresses 16 apart (4 lines of 4 bytes) fall in the same set.
fn same_set(k: usize) -> usize {
    k * 16
}

#[test]
fn full_set_evicts_least_recently_used() {
    let memory = MainMemory::<256, 4>::new(counting_memory());
    let mut cache = memory.create_cache::<8, 4>();
    for k in 0..4 {
        assert_eq!(cache.get(same_set(k)).1, CacheHit::Miss);
    }
    // All four ways are full; use line 0 again, so line 1 is now the oldest.
    assert_eq!(cache.get(same_set(0)).1, CacheHit::Hit);
    assert_eq!(cache.get(same_set(4)).1, CacheHit::Miss);
    assert_eq!(cache.get(same_set(0)).1, CacheHit::Hit);
    assert_eq!(cache.get(same_set(2)).1, CacheHit::Hit);
    assert_eq!(cache.get(same_set(3)).1, CacheHit::Hit);
    assert_eq!(cache.get(same_set(4)).1, CacheHit::Hit);
    assert_eq!(cache.get(same_set(1)).1, CacheHit::Miss);
}

#[test]
fn no_eviction_while_a_way_is_empty() {
    let memory = MainMemory::<256, 4>::new(counting_memory());
    let mut cache = memory.create_cache::<8, 4>();
    for k in 0..3 {
        cache.get(same_set(k));
    }
    for k in 0..3 {
        assert_eq!(cache.get(same_set(k)).1, CacheHit::Hit);
    }
}

#[test]
fn line_survives_fewer_lookups_than_ways() {
    let memory = MainMemory::<256, 4>::new(counting_memory());
    let mut cache = memory.create_cache::<8, 4>();
    for k in 0..4 {
        cache.get(same_set(k));
    }
    cache.get(same_set(9));
    for k in 10..13 {
        cache.get(same_set(k));
    }
    assert_eq!(cache.get(same_set(9)).1, CacheHit::Hit);
}

#[test]
fn sets_do_not_disturb_each_other() {
    let memory = MainMemory::<256, 4>::new(counting_memory());
    let mut cache = memory.create_cache::<8, 4>();
    cache.get(4);
    // Many lines of set 0 come and go.
    for k in 0..12 {
        cache.get(same_set(k));
    }
    assert_eq!(cache.get(4).1, CacheHit::Hit);
}

#[test]
fn set_is_the_line_number_modulo_the_ways() {
    // With 8 sets of 4 ways, lines 0 and 4 share set 0.
    let memory = MainMemory::<256, 4>::new(counting_memory());
    let mut cache = memory.create_cache::<8, 4>();
    for k in 0..5 {
        cache.get(k * 16);
    }
    assert_eq!(cache.get(0).1, CacheHit::Miss);
}

#[test]
fn reset_empties_the_cache() {
    let memory = MainMemory::<256, 4>::new(counting_memory());
    let mut cache = memory.create_cache::<8, 4>();
    cache.get(8);
    assert_eq!(cache.get(8).1, CacheHit::Hit);
    cache.reset();
    assert_eq!(cache.get(8).1, CacheHit::Miss);
}

#[test]
fn fresh_cache_fills_and_evicts_in_lru_order() {
    // 1 set in use (addresses with line % 4 == 0 map to set 0), 4 ways.
    let memory = MainMemory::<256, 4>::new(counting_memory());
    let mut cache = memory.create_cache::<8, 4>();
    for a in [0usize, 16, 32, 48] {
        assert_eq!(cache.get(a).1, CacheHit::Miss);
    }
    // All four fit: each hits.
    for a in [0usize, 16, 32, 48] {
        assert_eq!(cache.get(a).1, CacheHit::Hit);
    }
    // A fifth line evicts the least recently used, line 0.
    assert_eq!(cache.get(64).1, CacheHit::Miss);
    assert_eq!(cache.get(16).1, CacheHit::Hit);
    assert_eq!(cache.get(0).1, CacheHit::Miss);
    // Looking the same line up again hits and returns the same bytes.
    let first = cache.get(0);
    let second = cache.get(1);
    assert_eq!(first.0, second.0);
    assert_eq!(second.1, CacheHit::Hit);
}

#[test]
fn line_survives_exactly_until_ways_distinct_lines_of_its_set() {
    // 8 sets, 4 ways, 4-byte lines: lines 0, 4, 8, 12, 16 (addresses 0, 16, 32,
    // 48, 64) all map to set 0; address 4 (line 1) maps to set 1.
    let memory = MainMemory::<256, 4>::new(counting_memory());
    let mut cache = memory.create_cache::<8, 4>();
    cache.get(0);
    // Three distinct other lines of set 0, repeated, plus another set: 0 stays.
    for a in [16usize, 32, 16, 48, 4, 32] {
        cache.get(a);
    }
    assert_eq!(cache.get(1).1, CacheHit::Hit);
    // Now four distinct other lines of set 0 after the last lookup of line 0.
    for a in [16usize, 32, 48, 64] {
        cache.get(a);
    }
    assert_eq!(cache.get(2).1, CacheHit::Miss);
}
