//! The block cache: sharded, bounded by bytes, least recently used first,
//! with metadata blocks kept ahead of data blocks.

use vstd::prelude::*;
use crate::error::Result;
use crate::stats::sat_add;
use crate::table::TableId;

verus! {

pub const BLOCK_CACHE_SHARD_COUNT: usize = 128;

/// What a cached block holds.
#[derive(Debug, Clone, Copy, PartialEq, Eq, Structural, PartialOrd, Ord, Hash)]
pub enum CacheKind {
    DataBlock,
    IndexBlock,
    FilterBlock,
    RangeTombstoneBlock,
    BlobBlock,
}

/// Which queue a cached block waits in; low-priority blocks leave first.
#[derive(Debug, Clone, Copy, PartialEq, Eq, Structural)]
pub enum CachePriority {
    High,
    Low,
}

pub open spec fn priority_of(kind: CacheKind) -> CachePriority {
    match kind {
        CacheKind::IndexBlock | CacheKind::FilterBlock | CacheKind::RangeTombstoneBlock => CachePriority::High,
        CacheKind::DataBlock | CacheKind::BlobBlock => CachePriority::Low,
    }
}

pub open spec fn kind_number(kind: CacheKind) -> u64 {
    match kind {
        CacheKind::DataBlock => 0,
        CacheKind::IndexBlock => 1,
        CacheKind::FilterBlock => 2,
        CacheKind::RangeTombstoneBlock => 3,
        CacheKind::BlobBlock => 4,
    }
}

impl CacheKind {
    /// Index, filter and range tombstone blocks are kept with high priority;
    /// data and blob blocks with low priority.
    pub fn priority(self) -> (r: CachePriority)
        ensures
            r == priority_of(self),
    {
        match self {
            CacheKind::IndexBlock | CacheKind::FilterBlock | CacheKind::RangeTombstoneBlock => CachePriority::High,
            CacheKind::DataBlock | CacheKind::BlobBlock => CachePriority::Low,
        }
    }

    fn number(self) -> (r: u64)
        ensures
            r == kind_number(self),
    {
        match self {
            CacheKind::DataBlock => 0,
            CacheKind::IndexBlock => 1,
            CacheKind::FilterBlock => 2,
            CacheKind::RangeTombstoneBlock => 3,
            CacheKind::BlobBlock => 4,
        }
    }
}

/// Hit and miss counters of a cache.
#[derive(Debug, Clone, Copy, PartialEq, Eq, Structural)]
pub struct CacheStats {
    pub hits: u64,
    pub misses: u64,
}

impl Default for CacheStats {
    fn default() -> (r: Self)
        ensures
            r.hits == 0 && r.misses == 0,
    {
        CacheStats { hits: 0, misses: 0 }
    }
}

/// Identifies a cached block: its kind, table and position.
#[derive(Debug, Clone, Copy, PartialEq, Eq, Structural, PartialOrd, Ord, Hash)]
pub struct BlockCacheKey {
    pub kind: CacheKind,
    pub table_id: TableId,
    pub block_index: usize,
}

impl BlockCacheKey {
    /// Key of a data block.
    pub fn new(table_id: TableId, block_index: usize) -> (r: Self)
        ensures
            r == (BlockCacheKey { kind: CacheKind::DataBlock, table_id, block_index }),
    {
        Self::with_kind(CacheKind::DataBlock, table_id, block_index)
    }

    pub fn with_kind(kind: CacheKind, table_id: TableId, block_index: usize) -> (r: Self)
        ensures
            r == (BlockCacheKey { kind, table_id, block_index }),
    {
        BlockCacheKey { kind, table_id, block_index }
    }
}

/// The shard that holds a key: a mix of table id, block index and kind,
/// modulo the shard count.
pub open spec fn shard_of(key: BlockCacheKey) -> int {
    let mixed = vstd::wrapping::u64_specs::wrapping_mul(key.table_id.0, 0x9E37_79B9_7F4A_7C15)
        ^ (key.block_index as u64) ^ vstd::wrapping::u64_specs::wrapping_mul(
        kind_number(key.kind),
        0x517C_C1B7_2722_0A95,
    );
    (mixed % (BLOCK_CACHE_SHARD_COUNT as u64)) as int
}

pub fn block_cache_shard_index(key: BlockCacheKey) -> (r: usize)
    ensures
        r == shard_of(key),
        r < BLOCK_CACHE_SHARD_COUNT,
{
    let kind = key.kind.number();
    let mixed = key.table_id.get().wrapping_mul(0x9E37_79B9_7F4A_7C15) ^ (key.block_index as u64)
        ^ kind.wrapping_mul(0x517C_C1B7_2722_0A95);
    (mixed % (BLOCK_CACHE_SHARD_COUNT as u64)) as usize
}

/// Capacity of one shard: the total divided by the shard count, rounded up
/// (saturating at `u64::MAX` before the division).
pub open spec fn shard_capacity(capacity_bytes: u64, shard_count: u64) -> u64 {
    let count = if shard_count == 0 {
        1
    } else {
        shard_count
    };
    (sat_add(capacity_bytes, (count - 1) as u64) / count) as u64
}

pub fn shard_capacity_bytes(capacity_bytes: u64, shard_count: usize) -> (r: u64)
    ensures
        r == shard_capacity(capacity_bytes, shard_count as u64),
{
    let mut count = shard_count as u64;
    if count < 1 {
        count = 1;
    }
    capacity_bytes.saturating_add(count - 1) / count
}

// ---------------------------------------------------------------- one shard

/// A cached value with its size and priority.
pub struct BlockCacheEntry<V> {
    pub value: V,
    pub size: u64,
    pub priority: CachePriority,
}

/// One shard: its entries, the keys of each priority from least to most
/// recently used, and the bytes held at each priority.
pub struct BlockCacheState<V> {
    entries: Vec<(BlockCacheKey, BlockCacheEntry<V>)>,
    high_order: Vec<BlockCacheKey>,
    low_order: Vec<BlockCacheKey>,
    high_bytes: u64,
    low_bytes: u64,
}

pub struct CacheStateView<V> {
    pub entries: Seq<(BlockCacheKey, BlockCacheEntry<V>)>,
    pub high_order: Seq<BlockCacheKey>,
    pub low_order: Seq<BlockCacheKey>,
    pub high_bytes: u64,
    pub low_bytes: u64,
}

impl<V> View for BlockCacheState<V> {
    type V = CacheStateView<V>;

    closed spec fn view(&self) -> CacheStateView<V> {
        CacheStateView {
            entries: self.entries@,
            high_order: self.high_order@,
            low_order: self.low_order@,
            high_bytes: self.high_bytes,
            low_bytes: self.low_bytes,
        }
    }
}

/// Position of the first entry with `key`, or -1.
pub open spec fn key_position<V>(entries: Seq<(BlockCacheKey, BlockCacheEntry<V>)>, key: BlockCacheKey) -> int
    decreases entries.len(),
{
    if entries.len() == 0 {
        -1
    } else {
        let p = key_position(entries.drop_last(), key);
        if p >= 0 {
            p
        } else if entries.last().0 == key {
            entries.len() - 1
        } else {
            -1
        }
    }
}

/// Position of the first occurrence of `key` in `order`, or -1.
pub open spec fn order_position(order: Seq<BlockCacheKey>, key: BlockCacheKey) -> int
    decreases order.len(),
{
    if order.len() == 0 {
        -1
    } else {
        let p = order_position(order.drop_last(), key);
        if p >= 0 {
            p
        } else if order.last() == key {
            order.len() - 1
        } else {
            -1
        }
    }
}

pub proof fn lemma_key_position<V>(entries: Seq<(BlockCacheKey, BlockCacheEntry<V>)>, key: BlockCacheKey)
    ensures
        -1 <= key_position(entries, key) < entries.len(),
        key_position(entries, key) >= 0 ==> entries[key_position(entries, key)].0 == key,
        key_position(entries, key) >= 0 ==> forall|j: int|
            0 <= j < key_position(entries, key) ==> entries[j].0 != key,
        key_position(entries, key) < 0 ==> forall|j: int| 0 <= j < entries.len() ==> entries[j].0 != key,
    decreases entries.len(),
{
    if entries.len() > 0 {
        let d = entries.drop_last();
        lemma_key_position(d, key);
        assert forall|j: int| 0 <= j < d.len() implies d[j] == entries[j] by {}
    }
}

pub proof fn lemma_order_position(order: Seq<BlockCacheKey>, key: BlockCacheKey)
    ensures
        -1 <= order_position(order, key) < order.len(),
        order_position(order, key) >= 0 ==> order[order_position(order, key)] == key,
        order_position(order, key) >= 0 ==> forall|j: int|
            0 <= j < order_position(order, key) ==> order[j] != key,
        order_position(order, key) < 0 ==> forall|j: int| 0 <= j < order.len() ==> order[j] != key,
    decreases order.len(),
{
    if order.len() > 0 {
        let d = order.drop_last();
        lemma_order_position(d, key);
        assert forall|j: int| 0 <= j < d.len() implies d[j] == order[j] by {}
    }
}

/// `order` with `key` moved to the most recently used end, if present.
pub open spec fn promoted(order: Seq<BlockCacheKey>, key: BlockCacheKey) -> Seq<BlockCacheKey> {
    let p = order_position(order, key);
    if p < 0 {
        order
    } else {
        order.remove(p).push(key)
    }
}

pub open spec fn promote_spec<V>(v: CacheStateView<V>, key: BlockCacheKey) -> CacheStateView<V> {
    match priority_of(key.kind) {
        CachePriority::High => CacheStateView { high_order: promoted(v.high_order, key), ..v },
        CachePriority::Low => CacheStateView { low_order: promoted(v.low_order, key), ..v },
    }
}

/// Inserting a key already present replaces its entry and leaves the
/// queues and byte counts alone; a new key joins the back of its queue and
/// adds its size, saturating.
pub open spec fn insert_spec<V>(v: CacheStateView<V>, key: BlockCacheKey, size: u64, value: V) -> CacheStateView<V> {
    let entry = BlockCacheEntry { value, size, priority: priority_of(key.kind) };
    let p = key_position(v.entries, key);
    if p >= 0 {
        CacheStateView { entries: v.entries.update(p, (key, entry)), ..v }
    } else {
        match priority_of(key.kind) {
            CachePriority::High => CacheStateView {
                entries: v.entries.push((key, entry)),
                high_order: v.high_order.push(key),
                high_bytes: sat_add(v.high_bytes, size),
                ..v
            },
            CachePriority::Low => CacheStateView {
                entries: v.entries.push((key, entry)),
                low_order: v.low_order.push(key),
                low_bytes: sat_add(v.low_bytes, size),
                ..v
            },
        }
    }
}

pub open spec fn total_of<V>(v: CacheStateView<V>) -> u64 {
    sat_add(v.high_bytes, v.low_bytes)
}

pub open spec fn sat_sub(a: u64, b: u64) -> u64 {
    if a >= b {
        (a - b) as u64
    } else {
        0
    }
}

/// Drops the entry of `key`, if any, and its bytes from its priority.
pub open spec fn remove_spec<V>(v: CacheStateView<V>, key: BlockCacheKey) -> CacheStateView<V> {
    let p = key_position(v.entries, key);
    if p < 0 {
        v
    } else {
        let entry = v.entries[p].1;
        match entry.priority {
            CachePriority::High => CacheStateView {
                entries: v.entries.remove(p),
                high_bytes: sat_sub(v.high_bytes, entry.size),
                ..v
            },
            CachePriority::Low => CacheStateView {
                entries: v.entries.remove(p),
                low_bytes: sat_sub(v.low_bytes, entry.size),
                ..v
            },
        }
    }
}

/// Evicts until at most `capacity` bytes remain: the least recently used
/// low-priority entry first, high-priority entries only once no
/// low-priority key is queued, and everything when both queues are empty.
pub open spec fn evict_spec<V>(v: CacheStateView<V>, capacity: u64) -> CacheStateView<V>
    decreases v.high_order.len() + v.low_order.len(),
{
    if total_of(v) <= capacity {
        v
    } else if v.low_order.len() > 0 {
        evict_spec(
            remove_spec(CacheStateView { low_order: v.low_order.drop_first(), ..v }, v.low_order[0]),
            capacity,
        )
    } else if v.high_order.len() > 0 {
        evict_spec(
            remove_spec(CacheStateView { high_order: v.high_order.drop_first(), ..v }, v.high_order[0]),
            capacity,
        )
    } else {
        CacheStateView {
            entries: Seq::empty(),
            high_order: Seq::empty(),
            low_order: Seq::empty(),
            high_bytes: 0,
            low_bytes: 0,
        }
    }
}

fn promote_order(order: &mut Vec<BlockCacheKey>, key: BlockCacheKey)
    ensures
        final(order)@ == promoted(old(order)@, key),
{
    proof {
        lemma_order_position(order@, key);
    }
    let mut i: usize = 0;
    while i < order.len()
        invariant
            i <= order@.len(),
            order@ == old(order)@,
            forall|j: int| 0 <= j < i ==> order@[j] != key,
            -1 <= order_position(order@, key) < order@.len(),
            order_position(order@, key) >= 0 ==> order@[order_position(order@, key)] == key
                && forall|j: int| 0 <= j < order_position(order@, key) ==> order@[j] != key,
            order_position(order@, key) < 0 ==> forall|j: int| 0 <= j < order@.len() ==> order@[j] != key,
        decreases order@.len() - i,
    {
        if order[i] == key {
            assert(order_position(order@, key) == i);
            order.remove(i);
            order.push(key);
            return;
        }
        i = i + 1;
    }
}

impl<V> BlockCacheState<V> {
    pub fn new() -> (r: Self)
        ensures
            r@.entries.len() == 0,
            r@.high_order.len() == 0,
            r@.low_order.len() == 0,
            r@.high_bytes == 0,
            r@.low_bytes == 0,
    {
        BlockCacheState {
            entries: Vec::new(),
            high_order: Vec::new(),
            low_order: Vec::new(),
            high_bytes: 0,
            low_bytes: 0,
        }
    }

    /// Position of the entry with `key`.
    pub fn find(&self, key: BlockCacheKey) -> (r: Option<usize>)
        ensures
            match r {
                Some(i) => i == key_position(self@.entries, key) && i < self@.entries.len()
                    && self@.entries[i as int].0 == key,
                None => key_position(self@.entries, key) < 0,
            },
    {
        proof {
            lemma_key_position(self@.entries, key);
        }
        let mut i: usize = 0;
        while i < self.entries.len()
            invariant
                i <= self@.entries.len(),
                forall|j: int| 0 <= j < i ==> self@.entries[j].0 != key,
                -1 <= key_position(self@.entries, key) < self@.entries.len(),
                key_position(self@.entries, key) >= 0 ==> self@.entries[key_position(self@.entries, key)].0 == key
                    && forall|j: int| 0 <= j < key_position(self@.entries, key) ==> self@.entries[j].0 != key,
                key_position(self@.entries, key) < 0 ==> forall|j: int|
                    0 <= j < self@.entries.len() ==> self@.entries[j].0 != key,
            decreases self@.entries.len() - i,
        {
            if self.entries[i].0 == key {
                return Some(i);
            }
            i = i + 1;
        }
        None
    }

    /// The value cached under `key`, if any.
    pub fn get(&self, key: BlockCacheKey) -> (r: Option<&V>)
        ensures
            match r {
                Some(v) => key_position(self@.entries, key) >= 0 && *v == self@.entries[key_position(self@.entries, key)].1.value,
                None => key_position(self@.entries, key) < 0,
            },
    {
        match self.find(key) {
            Some(i) => Some(&self.entries[i].1.value),
            None => None,
        }
    }

    pub fn insert(&mut self, key: BlockCacheKey, size: u64, value: V)
        ensures
            final(self)@ == insert_spec(old(self)@, key, size, value),
    {
        let priority = key.kind.priority();
        let entry = BlockCacheEntry { value, size, priority };
        match self.find(key) {
            Some(i) => {
                self.entries.set(i, (key, entry));
            },
            None => {
                self.entries.push((key, entry));
                match priority {
                    CachePriority::High => {
                        self.high_order.push(key);
                        self.high_bytes = self.high_bytes.saturating_add(size);
                    },
                    CachePriority::Low => {
                        self.low_order.push(key);
                        self.low_bytes = self.low_bytes.saturating_add(size);
                    },
                }
            },
        }
    }

    /// Marks `key` most recently used within its priority.
    pub fn promote(&mut self, key: BlockCacheKey)
        ensures
            final(self)@ == promote_spec(old(self)@, key),
    {
        match key.kind.priority() {
            CachePriority::High => promote_order(&mut self.high_order, key),
            CachePriority::Low => promote_order(&mut self.low_order, key),
        }
    }

    pub fn total_bytes(&self) -> (r: u64)
        ensures
            r == total_of(self@),
    {
        self.high_bytes.saturating_add(self.low_bytes)
    }

    fn remove_key(&mut self, key: BlockCacheKey)
        ensures
            final(self)@ == remove_spec(old(self)@, key),
    {
        match self.find(key) {
            Some(i) => {
                let priority = self.entries[i].1.priority;
                let size = self.entries[i].1.size;
                self.entries.remove(i);
                match priority {
                    CachePriority::High => {
                        self.high_bytes = self.high_bytes.saturating_sub(size);
                    },
                    CachePriority::Low => {
                        self.low_bytes = self.low_bytes.saturating_sub(size);
                    },
                }
            },
            None => {},
        }
    }

    /// Evicts least recently used entries, low priority first, until at
    /// most `capacity_bytes` remain.
    pub fn evict_to(&mut self, capacity_bytes: u64)
        ensures
            final(self)@ == evict_spec(old(self)@, capacity_bytes),
            total_of(final(self)@) <= capacity_bytes,
    {
        proof {
            lemma_evict_fits(self@, capacity_bytes);
        }
        while self.total_bytes() > capacity_bytes
            invariant
                evict_spec(old(self)@, capacity_bytes) == evict_spec(self@, capacity_bytes),
                total_of(evict_spec(self@, capacity_bytes)) <= capacity_bytes,
            decreases self@.high_order.len() + self@.low_order.len(),
        {
            if self.low_order.len() > 0 {
                let key = self.low_order.remove(0);
                self.remove_key(key);
            } else if self.high_order.len() > 0 {
                let key = self.high_order.remove(0);
                self.remove_key(key);
            } else {
                self.entries = Vec::new();
                self.high_order = Vec::new();
                self.low_order = Vec::new();
                self.high_bytes = 0;
                self.low_bytes = 0;
                return;
            }
        }
    }
}

/// Eviction always ends within the capacity.
pub proof fn lemma_evict_fits<V>(v: CacheStateView<V>, capacity: u64)
    ensures
        total_of(evict_spec(v, capacity)) <= capacity,
    decreases v.high_order.len() + v.low_order.len(),
{
    if total_of(v) <= capacity {
    } else if v.low_order.len() > 0 {
        lemma_evict_fits(
            remove_spec(CacheStateView { low_order: v.low_order.drop_first(), ..v }, v.low_order[0]),
            capacity,
        );
    } else if v.high_order.len() > 0 {
        lemma_evict_fits(
            remove_spec(CacheStateView { high_order: v.high_order.drop_first(), ..v }, v.high_order[0]),
            capacity,
        );
    }
}

/// Eviction gives up high-priority entries only after every queued
/// low-priority entry: if any high-priority key leaves its queue, the
/// low-priority queue ends empty, and the high-priority keys that stay are
/// the most recently used ones, in order.
pub proof fn lemma_evict_low_first<V>(v: CacheStateView<V>, capacity: u64)
    ensures
        exists|k: int|
            0 <= k <= v.high_order.len() && #[trigger] evict_spec(v, capacity).high_order
                == v.high_order.skip(k) && (k > 0 ==> evict_spec(v, capacity).low_order.len() == 0),
        exists|k: int|
            0 <= k <= v.low_order.len() && #[trigger] evict_spec(v, capacity).low_order
                == v.low_order.skip(k),
    decreases v.high_order.len() + v.low_order.len(),
{
    let r = evict_spec(v, capacity);
    if total_of(v) <= capacity {
        assert(r.high_order == v.high_order.skip(0));
        assert(r.low_order == v.low_order.skip(0));
    } else if v.low_order.len() > 0 {
        let w = remove_spec(CacheStateView { low_order: v.low_order.drop_first(), ..v }, v.low_order[0]);
        lemma_evict_low_first(w, capacity);
        let k = choose|k: int|
            0 <= k <= w.high_order.len() && #[trigger] evict_spec(w, capacity).high_order
                == w.high_order.skip(k) && (k > 0 ==> evict_spec(w, capacity).low_order.len() == 0);
        assert(r.high_order == v.high_order.skip(k));
        let j = choose|j: int|
            0 <= j <= w.low_order.len() && #[trigger] evict_spec(w, capacity).low_order == w.low_order.skip(j);
        assert(v.low_order.drop_first().skip(j) =~= v.low_order.skip(j + 1));
        assert(r.low_order == v.low_order.skip(j + 1));
    } else if v.high_order.len() > 0 {
        let w = remove_spec(CacheStateView { high_order: v.high_order.drop_first(), ..v }, v.high_order[0]);
        lemma_evict_low_first(w, capacity);
        let k = choose|k: int|
            0 <= k <= w.high_order.len() && #[trigger] evict_spec(w, capacity).high_order
                == w.high_order.skip(k) && (k > 0 ==> evict_spec(w, capacity).low_order.len() == 0);
        assert(v.high_order.drop_first().skip(k) =~= v.high_order.skip(k + 1));
        assert(r.high_order == v.high_order.skip(k + 1));
        let j = choose|j: int|
            0 <= j <= w.low_order.len() && #[trigger] evict_spec(w, capacity).low_order == w.low_order.skip(j);
        assert(r.low_order == v.low_order.skip(0));
        assert(r.low_order.len() == 0);
    } else {
        assert(r.high_order =~= v.high_order.skip(v.high_order.len() as int));
        assert(r.low_order =~= v.low_order.skip(v.low_order.len() as int));
    }
}

// ---------------------------------------------------------------- the cache

/// A block cache of `BLOCK_CACHE_SHARD_COUNT` shards, each holding at most
/// its share of the capacity.
pub struct BlockCache<V> {
    capacity_bytes: u64,
    shard_capacity_bytes: u64,
    hits: u64,
    misses: u64,
    shards: Vec<BlockCacheState<V>>,
}

impl<V: Clone> BlockCache<V> {
    pub closed spec fn spec_capacity(&self) -> u64 {
        self.capacity_bytes
    }

    pub closed spec fn spec_shard_capacity(&self) -> u64 {
        self.shard_capacity_bytes
    }

    pub closed spec fn spec_hits(&self) -> u64 {
        self.hits
    }

    pub closed spec fn spec_misses(&self) -> u64 {
        self.misses
    }

    pub closed spec fn shard(&self, i: int) -> CacheStateView<V> {
        self.shards@[i]@
    }

    pub open spec fn well_formed(&self) -> bool {
        self.shard_count() == BLOCK_CACHE_SHARD_COUNT
    }

    pub closed spec fn shard_count(&self) -> nat {
        self.shards@.len()
    }

    /// An empty cache of `capacity_bytes` bytes.
    pub fn new(capacity_bytes: usize) -> (r: Self)
        ensures
            r.well_formed(),
            r.spec_capacity() == capacity_bytes,
            r.spec_shard_capacity() == shard_capacity(capacity_bytes as u64, BLOCK_CACHE_SHARD_COUNT as u64),
            r.spec_hits() == 0,
            r.spec_misses() == 0,
            forall|i: int|
                0 <= i < BLOCK_CACHE_SHARD_COUNT ==> (#[trigger] r.shard(i)).entries.len() == 0
                    && r.shard(i).high_order.len() == 0 && r.shard(i).low_order.len() == 0
                    && r.shard(i).high_bytes == 0 && r.shard(i).low_bytes == 0,
    {
        let capacity = capacity_bytes as u64;
        let mut shards: Vec<BlockCacheState<V>> = Vec::new();
        let mut i: usize = 0;
        while i < BLOCK_CACHE_SHARD_COUNT
            invariant
                i <= BLOCK_CACHE_SHARD_COUNT,
                shards@.len() == i,
                forall|j: int|
                    0 <= j < i ==> (#[trigger] shards@[j])@.entries.len() == 0
                        && shards@[j]@.high_order.len() == 0 && shards@[j]@.low_order.len() == 0
                        && shards@[j]@.high_bytes == 0 && shards@[j]@.low_bytes == 0,
            decreases BLOCK_CACHE_SHARD_COUNT - i,
        {
            shards.push(BlockCacheState::new());
            i = i + 1;
        }
        BlockCache {
            capacity_bytes: capacity,
            shard_capacity_bytes: shard_capacity_bytes(capacity, BLOCK_CACHE_SHARD_COUNT),
            hits: 0,
            misses: 0,
            shards,
        }
    }

    /// The cached value of `key`, or the value `load` gives, which is
    /// cached when its size fits the capacity. `load` returns the value and
    /// its estimated size; sizes count as at least one byte.
    pub fn get_or_insert_value_with<F: FnOnce() -> Result<(V, u64)>>(&mut self, key: BlockCacheKey, load: F) -> (r: Result<V>)
        requires
            old(self).well_formed(),
            load.requires(()),
        ensures
            final(self).well_formed(),
            final(self).spec_capacity() == old(self).spec_capacity(),
            final(self).spec_shard_capacity() == old(self).spec_shard_capacity(),
            forall|i: int| 0 <= i < BLOCK_CACHE_SHARD_COUNT && i != shard_of(key) ==> #[trigger] final(self).shard(i) == old(self).shard(i),
            old(self).spec_capacity() == 0 ==> {
                &&& final(self).spec_hits() == old(self).spec_hits()
                &&& final(self).spec_misses() == vstd::wrapping::u64_specs::wrapping_add(old(self).spec_misses(), 1)
                &&& final(self).shard(shard_of(key)) == old(self).shard(shard_of(key))
                &&& exists|res: Result<(V, u64)>| #[trigger] load.ensures((), res) && match res {
                    Ok((value, _)) => r == Ok::<V, crate::error::Error>(value),
                    Err(e) => r == Err::<V, crate::error::Error>(e),
                }
            },
            old(self).spec_capacity() != 0 && key_position(old(self).shard(shard_of(key)).entries, key) >= 0 ==> {
                let s = old(self).shard(shard_of(key));
                &&& r matches Ok(value) && cloned(s.entries[key_position(s.entries, key)].1.value, value)
                &&& final(self).shard(shard_of(key)) == promote_spec(s, key)
                &&& final(self).spec_hits() == vstd::wrapping::u64_specs::wrapping_add(old(self).spec_hits(), 1)
                &&& final(self).spec_misses() == old(self).spec_misses()
            },
            old(self).spec_capacity() != 0 && key_position(old(self).shard(shard_of(key)).entries, key) < 0 ==> {
                let s = old(self).shard(shard_of(key));
                exists|res: Result<(V, u64)>| #[trigger] load.ensures((), res) && match res {
                    Err(e) => r == Err::<V, crate::error::Error>(e) && final(self).shard(shard_of(key)) == s
                        && final(self).spec_hits() == old(self).spec_hits()
                        && final(self).spec_misses() == old(self).spec_misses(),
                    Ok((value, size)) => {
                        let bytes = if size < 1 { 1u64 } else { size };
                        &&& r == Ok::<V, crate::error::Error>(value)
                        &&& final(self).spec_hits() == old(self).spec_hits()
                        &&& final(self).spec_misses() == vstd::wrapping::u64_specs::wrapping_add(old(self).spec_misses(), 1)
                        &&& bytes <= old(self).spec_capacity() ==> exists|stored: V|
                            cloned(value, stored) && final(self).shard(shard_of(key)) == evict_spec(
                                insert_spec(s, key, bytes, stored),
                                old(self).spec_shard_capacity(),
                            )
                        &&& bytes > old(self).spec_capacity() ==> final(self).shard(shard_of(key)) == s
                    },
                }
            },
    {
        if self.capacity_bytes == 0 {
            self.misses = self.misses.wrapping_add(1);
            let loaded = load();
            let r = match loaded {
                Ok((value, _)) => Ok(value),
                Err(e) => Err(e),
            };
            proof {
                assert(load.ensures((), loaded));
            }
            return r;
        }
        let index = block_cache_shard_index(key);
        let mut shard = BlockCacheState::new();
        std::mem::swap(&mut shard, &mut self.shards[index]);
        let ghost s = shard@;
        assert(s == old(self).shard(index as int));
        let cached = match shard.get(key) {
            Some(value) => Some(value.clone()),
            None => None,
        };
        match cached {
            Some(value) => {
                shard.promote(key);
                self.shards.set(index, shard);
                self.hits = self.hits.wrapping_add(1);
                return Ok(value);
            },
            None => {},
        }
        let loaded = load();
        let (value, size) = match loaded {
            Ok(pair) => pair,
            Err(e) => {
                self.shards.set(index, shard);
                return Err(e);
            },
        };
        let bytes = if size < 1 {
            1
        } else {
            size
        };
        self.misses = self.misses.wrapping_add(1);
        let ghost stored_value = value;
        if bytes <= self.capacity_bytes {
            let stored = value.clone();
            proof {
                stored_value = stored;
            }
            shard.insert(key, bytes, stored);
            shard.evict_to(self.shard_capacity_bytes);
        }
        self.shards.set(index, shard);
        proof {
            assert(load.ensures((), loaded));
            assert(cloned(value, stored_value));
        }
        Ok(value)
    }

    /// Hits and misses so far.
    pub fn stats(&self) -> (r: CacheStats)
        ensures
            r.hits == self.spec_hits(),
            r.misses == self.spec_misses(),
    {
        CacheStats { hits: self.hits, misses: self.misses }
    }
}

} // verus!
