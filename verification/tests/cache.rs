use std::cell::Cell;

use trine_kv::cache::{
    block_cache_shard_index, shard_capacity_bytes, BlockCache, BlockCacheKey, CacheKind,
    CachePriority, BLOCK_CACHE_SHARD_COUNT,
};
use trine_kv::table::TableId;

fn load_counted(loads: &Cell<usize>) -> trine_kv::error::Result<(Vec<u8>, u64)> {
    loads.set(loads.get() + 1);
    Ok((Vec::new(), 1))
}

fn keys_in_same_shard(count: usize) -> Vec<BlockCacheKey> {
    let mut keys = Vec::new();
    let mut table_id = 1_u64;
    let mut shard = None;
    while keys.len() < count {
        let key = BlockCacheKey::new(TableId(table_id), 0);
        let key_shard = block_cache_shard_index(key);
        if shard.is_none_or(|shard| shard == key_shard) {
            shard = Some(key_shard);
            keys.push(key);
        }
        table_id += 1;
    }
    keys
}

fn key_in_shard(kind: CacheKind, shard: usize, start_table_id: u64) -> BlockCacheKey {
    let mut table_id = start_table_id.max(1);
    loop {
        let key = BlockCacheKey::with_kind(kind, TableId(table_id), 0);
        if block_cache_shard_index(key) == shard {
            return key;
        }
        table_id += 1;
    }
}

#[test]
fn cache_keys_include_block_kind() {
    let data = BlockCacheKey::with_kind(CacheKind::DataBlock, TableId(7), 3);
    let filter = BlockCacheKey::with_kind(CacheKind::FilterBlock, TableId(7), 3);
    let range_tombstone = BlockCacheKey::with_kind(CacheKind::RangeTombstoneBlock, TableId(7), 3);
    let blob = BlockCacheKey::with_kind(CacheKind::BlobBlock, TableId(7), 3);

    assert_ne!(data, filter);
    assert_ne!(data, range_tombstone);
    assert_ne!(data, blob);
}

#[test]
fn cache_hit_promotes_entry_before_eviction() {
    let keys = keys_in_same_shard(3);
    let mut cache: BlockCache<Vec<u8>> = BlockCache::new(BLOCK_CACHE_SHARD_COUNT * 2);
    let loads = Cell::new(0usize);

    cache.get_or_insert_value_with(keys[0], || load_counted(&loads)).expect("first block loads");
    cache.get_or_insert_value_with(keys[1], || load_counted(&loads)).expect("second block loads");
    cache
        .get_or_insert_value_with(keys[0], || load_counted(&loads))
        .expect("first block hits and promotes");
    cache
        .get_or_insert_value_with(keys[2], || load_counted(&loads))
        .expect("third block loads and evicts one entry");
    let loads_after_eviction = loads.get();

    cache
        .get_or_insert_value_with(keys[0], || load_counted(&loads))
        .expect("promoted first block stays cached");
    assert_eq!(loads.get(), loads_after_eviction);

    cache
        .get_or_insert_value_with(keys[1], || load_counted(&loads))
        .expect("least recently used second block reloads");
    assert_eq!(loads.get(), loads_after_eviction + 1);
}

#[test]
fn high_priority_entries_survive_low_priority_churn() {
    let target_shard = 0;
    let high_key = key_in_shard(CacheKind::IndexBlock, target_shard, 1);
    let low_a = key_in_shard(CacheKind::DataBlock, target_shard, high_key.table_id.get() + 1);
    let low_b = key_in_shard(CacheKind::DataBlock, target_shard, low_a.table_id.get() + 1);
    let mut cache: BlockCache<Vec<u8>> = BlockCache::new(BLOCK_CACHE_SHARD_COUNT * 2);
    let high_loads = Cell::new(0usize);
    let low_loads = Cell::new(0usize);

    cache
        .get_or_insert_value_with(high_key, || load_counted(&high_loads))
        .expect("high-priority block loads");
    cache
        .get_or_insert_value_with(low_a, || load_counted(&low_loads))
        .expect("first low-priority block loads");
    cache
        .get_or_insert_value_with(low_b, || load_counted(&low_loads))
        .expect("second low-priority block loads and evicts low-priority first");

    cache
        .get_or_insert_value_with(high_key, || load_counted(&high_loads))
        .expect("high-priority block hits");
    assert_eq!(high_loads.get(), 1);

    cache
        .get_or_insert_value_with(low_a, || load_counted(&low_loads))
        .expect("low-priority block reloads");
    assert_eq!(low_loads.get(), 3);
}

#[test]
fn cache_kinds_map_to_priorities() {
    assert_eq!(CacheKind::IndexBlock.priority(), CachePriority::High);
    assert_eq!(CacheKind::FilterBlock.priority(), CachePriority::High);
    assert_eq!(CacheKind::RangeTombstoneBlock.priority(), CachePriority::High);
    assert_eq!(CacheKind::DataBlock.priority(), CachePriority::Low);
    assert_eq!(CacheKind::BlobBlock.priority(), CachePriority::Low);
}

#[test]
fn shard_capacity_rounds_up() {
    assert_eq!(shard_capacity_bytes(256, 128), 2);
    assert_eq!(shard_capacity_bytes(257, 128), 3);
    assert_eq!(shard_capacity_bytes(0, 128), 0);
    assert_eq!(shard_capacity_bytes(10, 0), 10);
    assert_eq!(shard_capacity_bytes(u64::MAX, 2), u64::MAX / 2);
}

#[test]
fn zero_capacity_cache_counts_misses_and_keeps_nothing() {
    let mut cache: BlockCache<Vec<u8>> = BlockCache::new(0);
    let loads = Cell::new(0usize);
    let key = BlockCacheKey::new(TableId(1), 0);
    cache.get_or_insert_value_with(key, || load_counted(&loads)).expect("loads");
    cache.get_or_insert_value_with(key, || load_counted(&loads)).expect("loads again");
    assert_eq!(loads.get(), 2);
    let stats = cache.stats();
    assert_eq!(stats.hits, 0);
    assert_eq!(stats.misses, 2);
}

#[test]
fn oversized_values_are_not_cached() {
    let mut cache: BlockCache<Vec<u8>> = BlockCache::new(4);
    let loads = Cell::new(0usize);
    let key = BlockCacheKey::new(TableId(1), 0);
    let mut big = || {
        loads.set(loads.get() + 1);
        Ok((vec![1u8], 5))
    };
    cache.get_or_insert_value_with(key, &mut big).expect("loads");
    cache.get_or_insert_value_with(key, &mut big).expect("loads again");
    assert_eq!(loads.get(), 2);
    assert_eq!(cache.stats().misses, 2);
}
