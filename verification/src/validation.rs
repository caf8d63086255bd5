//! Checks on database and bucket options, and the compaction options they
//! give.

use vstd::prelude::*;
use crate::compaction::CompactionOptions;
use crate::error::{Error, ErrorKind, Result};
use crate::options::{BucketOptions, DbOptions, FilterPolicy, PrefixFilterPolicy};

verus! {

/// `value` as a `u64`, or `u64::MAX` where it does not fit.
pub open spec fn spec_usize_to_u64(value: usize) -> u64 {
    if value > u64::MAX {
        u64::MAX
    } else {
        value as u64
    }
}

/// Converts a `usize` to a `u64`, saturating at `u64::MAX`.
pub fn usize_to_u64_saturating(value: usize) -> (r: u64)
    ensures
        r == spec_usize_to_u64(value),
{
    proof {
        assert(usize::MAX <= u64::MAX);
    }
    value as u64
}

/// The message of the first rule that bucket options break, if any.
pub open spec fn bucket_options_problem(options: BucketOptions) -> Option<Seq<char>> {
    if options.block_bytes == 0 {
        Some("block size must be non-zero"@)
    } else if options.filter_policy == (FilterPolicy::Bloom { bits_per_key: 0 }) {
        Some("bits_per_key must be non-zero for Bloom filters"@)
    } else if options.prefix_filter_policy == (PrefixFilterPolicy::Bloom { bits_per_prefix: 0 }) {
        Some("bits_per_prefix must be non-zero for Bloom filters"@)
    } else if options.blob_threshold_bytes == 0 {
        Some("blob threshold must be non-zero"@)
    } else {
        None
    }
}

/// The message of the first rule that database options break, if any; the
/// options of the default bucket are checked first.
pub open spec fn db_options_problem(options: DbOptions) -> Option<Seq<char>> {
    let ratio = options.blob_gc_discardable_ratio.spec_millionths();
    if bucket_options_problem(options.default_bucket_options) is Some {
        bucket_options_problem(options.default_bucket_options)
    } else if options.write_buffer_bytes == 0 {
        Some("write buffer must be non-zero"@)
    } else if options.max_immutable_memtables == 0 {
        Some("max immutable memtables must be non-zero"@)
    } else if options.target_table_bytes == 0 {
        Some("target table size must be non-zero"@)
    } else if options.level_size_multiplier < 2 {
        Some("level size multiplier must be >= 2"@)
    } else if options.max_l0_files == 0 {
        Some("max L0 files must be non-zero"@)
    } else if ratio == 0 || ratio > 1_000_000 {
        Some("blob GC discardable ratio must be in (0.0, 1.0]"@)
    } else if options.blob_gc_enabled && options.blob_gc_min_file_bytes == 0 {
        Some("blob GC minimum file size must be non-zero"@)
    } else {
        None
    }
}

/// A result that fails with `InvalidOptions` and the message exactly when
/// there is a problem.
pub open spec fn options_outcome(r: Result<()>, problem: Option<Seq<char>>) -> bool {
    match problem {
        None => r is Ok,
        Some(message) => r matches Err(e) && e.kind() == ErrorKind::InvalidOptions
            && e.message_view() == message,
    }
}

/// Checks the options of a bucket.
pub fn validate_bucket_options(options: &BucketOptions) -> (r: Result<()>)
    ensures
        options_outcome(r, bucket_options_problem(*options)),
{
    proof {
        reveal_strlit("block size must be non-zero");
        reveal_strlit("bits_per_key must be non-zero for Bloom filters");
        reveal_strlit("bits_per_prefix must be non-zero for Bloom filters");
        reveal_strlit("blob threshold must be non-zero");
    }
    if options.block_bytes == 0 {
        return Err(Error::invalid_options("block size must be non-zero"));
    }
    if matches!(options.filter_policy, FilterPolicy::Bloom { bits_per_key: 0 }) {
        return Err(Error::invalid_options("bits_per_key must be non-zero for Bloom filters"));
    }
    if matches!(options.prefix_filter_policy, PrefixFilterPolicy::Bloom { bits_per_prefix: 0 }) {
        return Err(Error::invalid_options("bits_per_prefix must be non-zero for Bloom filters"));
    }
    if options.blob_threshold_bytes == 0 {
        return Err(Error::invalid_options("blob threshold must be non-zero"));
    }
    Ok(())
}

/// Checks the options of a database.
pub fn validate_options(options: &DbOptions) -> (r: Result<()>)
    ensures
        options_outcome(r, db_options_problem(*options)),
{
    let bucket = validate_bucket_options(&options.default_bucket_options);
    if bucket.is_err() {
        return bucket;
    }
    if options.write_buffer_bytes == 0 {
        return Err(Error::invalid_options("write buffer must be non-zero"));
    }
    if options.max_immutable_memtables == 0 {
        return Err(Error::invalid_options("max immutable memtables must be non-zero"));
    }
    if options.target_table_bytes == 0 {
        return Err(Error::invalid_options("target table size must be non-zero"));
    }
    if options.level_size_multiplier < 2 {
        return Err(Error::invalid_options("level size multiplier must be >= 2"));
    }
    if options.max_l0_files == 0 {
        return Err(Error::invalid_options("max L0 files must be non-zero"));
    }
    let blob_gc_ratio = options.blob_gc_discardable_ratio.millionths();
    if blob_gc_ratio == 0 || blob_gc_ratio > 1_000_000 {
        return Err(Error::invalid_options("blob GC discardable ratio must be in (0.0, 1.0]"));
    }
    if options.blob_gc_enabled && options.blob_gc_min_file_bytes == 0 {
        return Err(Error::invalid_options("blob GC minimum file size must be non-zero"));
    }
    Ok(())
}

/// Checks that a write batch's operation count fits in a `u32`.
pub fn validate_batch_len(len: usize) -> (r: Result<()>)
    ensures
        options_outcome(
            r,
            if len > u32::MAX {
                Some("write batch operation count exceeds u32::MAX"@)
            } else {
                None
            },
        ),
{
    if len > 0xffff_ffffusize {
        return Err(Error::invalid_options("write batch operation count exceeds u32::MAX"));
    }
    Ok(())
}

/// The compaction options that database options give.
pub fn compaction_options(options: &DbOptions) -> (r: CompactionOptions)
    ensures
        r.target_table_bytes == spec_usize_to_u64(options.target_table_bytes),
        r.level_size_multiplier == spec_usize_to_u64(options.level_size_multiplier),
        r.max_l0_files == options.max_l0_files,
{
    CompactionOptions {
        target_table_bytes: usize_to_u64_saturating(options.target_table_bytes),
        level_size_multiplier: usize_to_u64_saturating(options.level_size_multiplier),
        max_l0_files: options.max_l0_files,
    }
}

} // verus!
