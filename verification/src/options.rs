//! Database, bucket and write options.

use vstd::prelude::*;
use crate::codec::CodecId;
use crate::prefix::PrefixExtractor;

verus! {

/// Where the database keeps its data: in memory, or in the directory at
/// `path`.
#[derive(Debug, Clone, PartialEq, Eq)]
pub enum StorageMode {
    InMemory,
    Persistent { path: String },
}

impl Default for StorageMode {
    fn default() -> (r: Self)
        ensures
            r is InMemory,
    {
        StorageMode::InMemory
    }
}

/// How far a commit is pushed toward stable storage before it returns.
#[derive(Debug, Clone, Copy, PartialEq, Eq, Structural)]
pub enum DurabilityMode {
    Buffered,
    Flush,
    SyncData,
    SyncAll,
}

impl Default for DurabilityMode {
    fn default() -> (r: Self)
        ensures
            r == DurabilityMode::Buffered,
    {
        DurabilityMode::Buffered
    }
}

/// Block compression chosen for a bucket.
#[derive(Debug, Clone, Copy, PartialEq, Eq, Structural)]
pub enum CompressionProfile {
    Uncompressed,
    Fast,
}

impl Default for CompressionProfile {
    fn default() -> (r: Self)
        ensures
            r == CompressionProfile::Fast,
    {
        CompressionProfile::Fast
    }
}

pub open spec fn profile_codec(profile: CompressionProfile) -> CodecId {
    match profile {
        CompressionProfile::Uncompressed => CodecId::Uncompressed,
        CompressionProfile::Fast => CodecId::FastLz4Block,
    }
}

impl CompressionProfile {
    /// The block codec that implements this profile.
    #[must_use]
    pub fn codec_id(self) -> (r: CodecId)
        ensures
            r == profile_codec(self),
    {
        match self {
            CompressionProfile::Uncompressed => CodecId::Uncompressed,
            CompressionProfile::Fast => CodecId::FastLz4Block,
        }
    }
}

/// Point-key filter policy of a bucket.
#[derive(Debug, Clone, Copy, PartialEq, Eq, Structural)]
pub enum FilterPolicy {
    Disabled,
    Bloom { bits_per_key: u8 },
}

impl Default for FilterPolicy {
    fn default() -> (r: Self)
        ensures
            r == (FilterPolicy::Bloom { bits_per_key: 10 }),
    {
        FilterPolicy::Bloom { bits_per_key: 10 }
    }
}

/// Prefix filter policy of a bucket.
#[derive(Debug, Clone, Copy, PartialEq, Eq, Structural)]
pub enum PrefixFilterPolicy {
    Disabled,
    Bloom { bits_per_prefix: u8 },
}

impl Default for PrefixFilterPolicy {
    fn default() -> (r: Self)
        ensures
            r == (PrefixFilterPolicy::Bloom { bits_per_prefix: 10 }),
    {
        PrefixFilterPolicy::Bloom { bits_per_prefix: 10 }
    }
}

/// When a compaction rewrites the blob indexes of the records it keeps.
#[derive(Debug, Clone, Copy, PartialEq, Eq, Structural)]
pub enum BlobLevelMergePolicy {
    /// Never.
    Disabled,
    /// Whenever the output refers to a blob file.
    Always,
    /// When the output refers to several blob files, or to less of a blob
    /// file than the input did.
    Auto,
}

/// How sorted table indexes are searched.
#[derive(Debug, Clone, Copy, PartialEq, Eq, Structural)]
pub enum IndexSearchPolicy {
    Linear,
    Binary,
    Eytzinger,
    GallopingWithHint,
    Auto,
}

impl Default for IndexSearchPolicy {
    fn default() -> (r: Self)
        ensures
            r == IndexSearchPolicy::Auto,
    {
        IndexSearchPolicy::Auto
    }
}

/// What startup does with leftover temporary files.
#[derive(Debug, Clone, Copy, PartialEq, Eq, Structural)]
pub enum FailOnCorruptionPolicy {
    FailClosed,
    RepairSafeTemporaryFiles,
}

impl Default for FailOnCorruptionPolicy {
    fn default() -> (r: Self)
        ensures
            r == FailOnCorruptionPolicy::FailClosed,
    {
        FailOnCorruptionPolicy::FailClosed
    }
}

pub const DEFAULT_WRITE_BUFFER_BYTES: usize = 67108864;
pub const DEFAULT_TARGET_TABLE_BYTES: usize = 67108864;
pub const DEFAULT_BLOCK_CACHE_BYTES: usize = 268435456;
pub const DEFAULT_BLOB_GC_MIN_FILE_BYTES: u64 = 67108864;
pub const DEFAULT_BLOCK_BYTES: usize = 16384;
pub const DEFAULT_BLOB_THRESHOLD_BYTES: usize = 1048576;

/// Options of a database.
#[derive(Debug, Clone, PartialEq, Eq)]
pub struct DbOptions {
    pub storage_mode: StorageMode,
    pub create_if_missing: bool,
    pub read_only: bool,
    /// Options used when the built-in default bucket is first created.
    pub default_bucket_options: BucketOptions,
    pub durability: DurabilityMode,
    pub write_buffer_bytes: usize,
    pub max_immutable_memtables: usize,
    pub target_table_bytes: usize,
    pub level_size_multiplier: usize,
    pub max_l0_files: usize,
    pub block_cache_bytes: usize,
    pub background_worker_count: usize,
    pub fail_on_corruption: FailOnCorruptionPolicy,
    pub blob_gc_enabled: bool,
    pub blob_gc_discardable_ratio: BlobGcRatio,
    pub blob_gc_min_file_bytes: u64,
}

impl DbOptions {
    /// The defaults, apart from the storage mode.
    pub open spec fn has_defaults_besides_storage(self) -> bool {
        &&& self.create_if_missing
        &&& !self.read_only
        &&& self.has_defaults_besides_storage_and_access()
    }

    /// Every field but the storage mode, `create_if_missing` and `read_only`
    /// holds its default.
    pub open spec fn has_defaults_besides_storage_and_access(self) -> bool {
        &&& self.default_bucket_options.is_default()
        &&& self.durability == DurabilityMode::Buffered
        &&& self.write_buffer_bytes == DEFAULT_WRITE_BUFFER_BYTES
        &&& self.max_immutable_memtables == 4
        &&& self.target_table_bytes == DEFAULT_TARGET_TABLE_BYTES
        &&& self.level_size_multiplier == 10
        &&& self.max_l0_files == 8
        &&& self.block_cache_bytes == DEFAULT_BLOCK_CACHE_BYTES
        &&& self.background_worker_count == 0
        &&& self.fail_on_corruption == FailOnCorruptionPolicy::FailClosed
        &&& self.blob_gc_enabled
        &&& self.blob_gc_discardable_ratio.spec_millionths() == 500_000
        &&& self.blob_gc_min_file_bytes == DEFAULT_BLOB_GC_MIN_FILE_BYTES
    }

    /// Options for an in-memory database.
    #[must_use]
    pub fn memory() -> (r: Self)
        ensures
            r.storage_mode is InMemory,
            r.has_defaults_besides_storage(),
    {
        Self::default()
    }

    /// Options for a database kept in the directory `path`.
    #[must_use]
    pub fn persistent(path: String) -> (r: Self)
        ensures
            r.storage_mode == (StorageMode::Persistent { path }),
            r.has_defaults_besides_storage(),
    {
        let defaults = Self::default();
        Self { storage_mode: StorageMode::Persistent { path }, ..defaults }
    }

    /// Options that open the directory `path` read-only.
    #[must_use]
    pub fn persistent_read_only(path: String) -> (r: Self)
        ensures
            r.storage_mode == (StorageMode::Persistent { path }),
            r.read_only,
            !r.create_if_missing,
            r.has_defaults_besides_storage_and_access(),
    {
        Self::persistent(path).read_only()
    }

    #[must_use]
    pub fn with_durability(self, durability: DurabilityMode) -> (r: Self)
        ensures
            r == (Self { durability, ..self }),
    {
        let mut options = self;
        options.durability = durability;
        options
    }

    /// Sets the options used by the built-in default bucket.
    ///
    /// Named buckets still use the options passed when they are created.
    #[must_use]
    pub fn with_default_bucket_options(self, options: BucketOptions) -> (r: Self)
        ensures
            r == (Self { default_bucket_options: options, ..self }),
    {
        let mut result = self;
        result.default_bucket_options = options;
        result
    }

    /// Opens read-only, and never creates the database.
    #[must_use]
    pub fn read_only(self) -> (r: Self)
        ensures
            r == (Self { read_only: true, create_if_missing: false, ..self }),
    {
        let mut options = self;
        options.read_only = true;
        options.create_if_missing = false;
        options
    }
}

impl Default for DbOptions {
    fn default() -> (r: Self)
        ensures
            r.storage_mode is InMemory,
            r.has_defaults_besides_storage(),
    {
        Self {
            storage_mode: StorageMode::InMemory,
            create_if_missing: true,
            read_only: false,
            default_bucket_options: BucketOptions::default(),
            durability: DurabilityMode::Buffered,
            write_buffer_bytes: DEFAULT_WRITE_BUFFER_BYTES,
            max_immutable_memtables: 4,
            target_table_bytes: DEFAULT_TARGET_TABLE_BYTES,
            level_size_multiplier: 10,
            max_l0_files: 8,
            block_cache_bytes: DEFAULT_BLOCK_CACHE_BYTES,
            background_worker_count: 0,
            fail_on_corruption: FailOnCorruptionPolicy::FailClosed,
            blob_gc_enabled: true,
            blob_gc_discardable_ratio: BlobGcRatio::half(),
            blob_gc_min_file_bytes: DEFAULT_BLOB_GC_MIN_FILE_BYTES,
        }
    }
}

/// Share of a blob file's bytes, in millionths, that must be discardable
/// before the file is collected.
#[derive(Debug, Clone, Copy, PartialEq, Eq, Structural)]
pub struct BlobGcRatio {
    millionths: u32,
}

impl BlobGcRatio {
    pub closed spec fn spec_millionths(self) -> u32 {
        self.millionths
    }

    /// Half of the file.
    pub fn half() -> (r: Self)
        ensures
            r.spec_millionths() == 500_000,
    {
        Self { millionths: 500_000 }
    }

    /// The whole file.
    pub fn full() -> (r: Self)
        ensures
            r.spec_millionths() == 1_000_000,
    {
        Self { millionths: 1_000_000 }
    }

    #[must_use]
    pub fn from_millionths(millionths: u32) -> (r: Self)
        ensures
            r.spec_millionths() == millionths,
    {
        Self { millionths }
    }

    #[must_use]
    #[verifier::when_used_as_spec(spec_millionths)]
    pub fn millionths(self) -> (r: u32)
        ensures
            r == self.spec_millionths(),
    {
        self.millionths
    }

    /// A file should be collected when it holds bytes and at least this
    /// share of them is discardable.
    pub fn should_collect(self, discardable_bytes: u64, total_bytes: u64) -> (r: bool)
        ensures
            r == (total_bytes != 0 && discardable_bytes * 1_000_000 >= total_bytes
                * self.spec_millionths()),
    {
        if total_bytes == 0 {
            return false;
        }
        let discardable = discardable_bytes as u128;
        let total = total_bytes as u128;
        let ratio = self.millionths as u128;
        proof {
            assert(discardable * 1_000_000 <= u128::MAX) by (nonlinear_arith)
                requires discardable <= u64::MAX;
            assert(total * ratio <= u128::MAX) by (nonlinear_arith)
                requires total <= u64::MAX, ratio <= u32::MAX;
        }
        discardable * 1_000_000 >= total * ratio
    }
}

impl Default for BlobGcRatio {
    fn default() -> (r: Self)
        ensures
            r.spec_millionths() == 500_000,
    {
        Self::half()
    }
}

/// Options of a bucket.
#[derive(Debug, Clone, PartialEq, Eq)]
pub struct BucketOptions {
    pub allow_empty_keys: bool,
    pub compression: CompressionProfile,
    pub block_bytes: usize,
    pub filter_policy: FilterPolicy,
    pub prefix_extractor: PrefixExtractor,
    pub prefix_filter_policy: PrefixFilterPolicy,
    pub index_search_policy: IndexSearchPolicy,
    pub blob_threshold_bytes: usize,
}

impl BucketOptions {
    pub open spec fn is_default(self) -> bool {
        &&& self.allow_empty_keys
        &&& self.compression == CompressionProfile::Fast
        &&& self.block_bytes == DEFAULT_BLOCK_BYTES
        &&& self.filter_policy == (FilterPolicy::Bloom { bits_per_key: 10 })
        &&& self.prefix_extractor is Disabled
        &&& self.prefix_filter_policy == (PrefixFilterPolicy::Bloom { bits_per_prefix: 10 })
        &&& self.index_search_policy == IndexSearchPolicy::Auto
        &&& self.blob_threshold_bytes == DEFAULT_BLOB_THRESHOLD_BYTES
    }

    #[must_use]
    pub fn with_prefix_extractor(self, prefix_extractor: PrefixExtractor) -> (r: Self)
        ensures
            r == (Self { prefix_extractor, ..self }),
    {
        let mut options = self;
        options.prefix_extractor = prefix_extractor;
        options
    }

    #[must_use]
    pub fn with_blob_threshold_bytes(self, blob_threshold_bytes: usize) -> (r: Self)
        ensures
            r == (Self { blob_threshold_bytes, ..self }),
    {
        let mut options = self;
        options.blob_threshold_bytes = blob_threshold_bytes;
        options
    }
}

impl Default for BucketOptions {
    fn default() -> (r: Self)
        ensures
            r.is_default(),
    {
        Self {
            allow_empty_keys: true,
            compression: CompressionProfile::Fast,
            block_bytes: DEFAULT_BLOCK_BYTES,
            filter_policy: FilterPolicy::Bloom { bits_per_key: 10 },
            prefix_extractor: PrefixExtractor::Disabled,
            prefix_filter_policy: PrefixFilterPolicy::Bloom { bits_per_prefix: 10 },
            index_search_policy: IndexSearchPolicy::Auto,
            blob_threshold_bytes: DEFAULT_BLOB_THRESHOLD_BYTES,
        }
    }
}

/// Options of one write.
#[derive(Debug, Clone, Copy, PartialEq, Eq, Structural)]
pub struct WriteOptions {
    pub durability: DurabilityMode,
}

impl Default for WriteOptions {
    fn default() -> (r: Self)
        ensures
            r.durability == DurabilityMode::Buffered,
    {
        Self::new(DurabilityMode::Buffered)
    }
}

impl WriteOptions {
    #[must_use]
    pub fn new(durability: DurabilityMode) -> (r: Self)
        ensures
            r.durability == durability,
    {
        Self { durability }
    }

    #[must_use]
    pub fn buffered() -> (r: Self)
        ensures
            r.durability == DurabilityMode::Buffered,
    {
        Self::new(DurabilityMode::Buffered)
    }

    #[must_use]
    pub fn flush() -> (r: Self)
        ensures
            r.durability == DurabilityMode::Flush,
    {
        Self::new(DurabilityMode::Flush)
    }

    #[must_use]
    pub fn sync_data() -> (r: Self)
        ensures
            r.durability == DurabilityMode::SyncData,
    {
        Self::new(DurabilityMode::SyncData)
    }

    #[must_use]
    pub fn sync_all() -> (r: Self)
        ensures
            r.durability == DurabilityMode::SyncAll,
    {
        Self::new(DurabilityMode::SyncAll)
    }
}

} // verus!
