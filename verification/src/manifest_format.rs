//! The manifest file. A 14-byte header (magic, format version, payload
//! length, payload checksum) precedes the payload: the write-ahead-log
//! replay floor, the keyspaces with their options, and the table list of
//! each keyspace. Names are stored as UTF-8, counts and lengths as
//! little-endian `u32`, sizes and sequences as little-endian `u64`.

use vstd::prelude::*;
use crate::blob_format::{codec_of_tag, codec_tag, fault_is, put_codec, Fault};
use crate::codec::CodecId;
use crate::error::{Error, ErrorKind, Result};
use crate::manifest::{
    entry_names, name_key, name_position, names_of, names_sorted, put_entry, put_named, text_bytes,
    text_from_utf8, utf8_decoded, utf8_encoded, ManifestState,
};
use crate::options::{BucketOptions, CompressionProfile, FilterPolicy, IndexSearchPolicy, PrefixFilterPolicy};
use crate::prefix::PrefixExtractor;
use crate::table::{TableId, TableLevel, TableProperties};
use crate::types::Sequence;
use crate::text::{decimal, push_decimal};
use vstd::bytes::{spec_u16_from_le_bytes, spec_u32_from_le_bytes};
use crate::wire::{
    checksum, checksum_spec, le16, le32, le64, len_prefixed, put_bytes, put_u16, put_u32, put_u64, put_u8,
    take_at, u16_at, u32_at, u64_at, u8_at, Cursor,
};

verus! {

pub const MANIFEST_MAGIC: u32 = 0x5452_4d46;

pub const MANIFEST_VERSION: u16 = 2;

pub const MANIFEST_HEADER_LEN: usize = 14;

// ---------------------------------------------------------------- records

/// A prefix extractor as the manifest records it.
pub enum ExtractorRecord {
    FixedLen(usize),
    Separator(u8),
    Custom(Seq<char>),
    Disabled,
}

/// Keyspace options as the manifest records them.
pub struct OptionsRecord {
    pub allow_empty_keys: bool,
    pub compression: CompressionProfile,
    pub block_bytes: usize,
    pub filter_policy: FilterPolicy,
    pub prefix_extractor: ExtractorRecord,
    pub prefix_filter_policy: PrefixFilterPolicy,
    pub index_search_policy: IndexSearchPolicy,
    pub blob_threshold_bytes: usize,
}

/// What the manifest records of a table.
pub struct TableRecord {
    pub id: u64,
    pub level: u32,
    pub smallest_user_key: Seq<u8>,
    pub largest_user_key: Seq<u8>,
    pub smallest_sequence: u64,
    pub largest_sequence: u64,
    pub codec: CodecId,
}

/// What a manifest file holds.
pub struct ManifestRecord {
    pub wal_replay_floor: u64,
    pub keyspaces: Seq<(Seq<char>, OptionsRecord)>,
    pub tables: Seq<(Seq<char>, Seq<TableRecord>)>,
}

pub open spec fn extractor_record(e: PrefixExtractor) -> ExtractorRecord {
    match e {
        PrefixExtractor::FixedLen(n) => ExtractorRecord::FixedLen(n),
        PrefixExtractor::Separator(b) => ExtractorRecord::Separator(b),
        PrefixExtractor::Custom(name) => ExtractorRecord::Custom(name@),
        PrefixExtractor::Disabled => ExtractorRecord::Disabled,
    }
}

pub open spec fn options_record(o: BucketOptions) -> OptionsRecord {
    OptionsRecord {
        allow_empty_keys: o.allow_empty_keys,
        compression: o.compression,
        block_bytes: o.block_bytes,
        filter_policy: o.filter_policy,
        prefix_extractor: extractor_record(o.prefix_extractor),
        prefix_filter_policy: o.prefix_filter_policy,
        index_search_policy: o.index_search_policy,
        blob_threshold_bytes: o.blob_threshold_bytes,
    }
}

pub open spec fn table_record(t: TableProperties) -> TableRecord {
    TableRecord {
        id: t.id.0,
        level: t.level.0,
        smallest_user_key: t.smallest_user_key@,
        largest_user_key: t.largest_user_key@,
        smallest_sequence: t.smallest_sequence.spec_get(),
        largest_sequence: t.largest_sequence.spec_get(),
        codec: t.codec,
    }
}

pub open spec fn list_records(tables: Seq<TableProperties>) -> Seq<TableRecord> {
    tables.map_values(|t: TableProperties| table_record(t))
}

pub open spec fn keyspace_records(entries: Seq<(String, BucketOptions)>) -> Seq<(Seq<char>, OptionsRecord)> {
    entries.map_values(|e: (String, BucketOptions)| (e.0@, options_record(e.1)))
}

pub open spec fn group_records(entries: Seq<(String, Vec<TableProperties>)>) -> Seq<(Seq<char>, Seq<TableRecord>)> {
    entries.map_values(|e: (String, Vec<TableProperties>)| (e.0@, list_records(e.1@)))
}

/// What the manifest file records of a state.
pub open spec fn manifest_record(s: ManifestState) -> ManifestRecord {
    ManifestRecord {
        wal_replay_floor: s.spec_wal_replay_floor(),
        keyspaces: keyspace_records(s.spec_keyspaces()),
        tables: group_records(s.spec_tables()),
    }
}

/// No table of the state refers to blob files (the manifest does not
/// record those references; they are read from the table files).
pub open spec fn without_blob_references(s: ManifestState) -> bool {
    forall|i: int, j: int|
        0 <= i < s.spec_tables().len() && 0 <= j < s.spec_tables()[i].1@.len() ==> {
            let t = #[trigger] s.spec_tables()[i].1@[j];
            t.blob_file_ids@.len() == 0 && t.blob_references@.len() == 0
        }
}

// ---------------------------------------------------------------- layout

pub open spec fn bool_byte(b: bool) -> u8 {
    if b {
        1
    } else {
        0
    }
}

pub open spec fn compression_tag(c: CompressionProfile) -> u8 {
    match c {
        CompressionProfile::Uncompressed => 0,
        CompressionProfile::Fast => 1,
    }
}

pub open spec fn filter_bytes(f: FilterPolicy) -> Seq<u8> {
    match f {
        FilterPolicy::Disabled => seq![0u8],
        FilterPolicy::Bloom { bits_per_key } => seq![1u8, bits_per_key],
    }
}

pub open spec fn extractor_bytes(e: ExtractorRecord) -> Seq<u8> {
    match e {
        ExtractorRecord::FixedLen(n) => seq![0u8] + le64(n as u64),
        ExtractorRecord::Separator(b) => seq![1u8, b],
        ExtractorRecord::Custom(name) => seq![2u8] + len_prefixed(utf8_encoded(name)),
        ExtractorRecord::Disabled => seq![3u8],
    }
}

pub open spec fn prefix_filter_bytes(f: PrefixFilterPolicy) -> Seq<u8> {
    match f {
        PrefixFilterPolicy::Disabled => seq![0u8],
        PrefixFilterPolicy::Bloom { bits_per_prefix } => seq![1u8, bits_per_prefix],
    }
}

pub open spec fn index_tag(i: IndexSearchPolicy) -> u8 {
    match i {
        IndexSearchPolicy::Linear => 0,
        IndexSearchPolicy::Binary => 1,
        IndexSearchPolicy::Eytzinger => 2,
        IndexSearchPolicy::GallopingWithHint => 3,
        IndexSearchPolicy::Auto => 4,
    }
}

pub open spec fn options_bytes(o: OptionsRecord) -> Seq<u8> {
    seq![bool_byte(o.allow_empty_keys), compression_tag(o.compression)] + le64(o.block_bytes as u64)
        + filter_bytes(o.filter_policy) + extractor_bytes(o.prefix_extractor) + prefix_filter_bytes(
        o.prefix_filter_policy,
    ) + seq![index_tag(o.index_search_policy)] + le64(o.blob_threshold_bytes as u64)
}

pub open spec fn table_bytes(t: TableRecord) -> Seq<u8> {
    le64(t.id) + le32(t.level) + len_prefixed(t.smallest_user_key) + len_prefixed(t.largest_user_key)
        + le64(t.smallest_sequence) + le64(t.largest_sequence) + seq![codec_tag(t.codec)]
}

pub open spec fn tables_bytes(tables: Seq<TableRecord>) -> Seq<u8>
    decreases tables.len(),
{
    if tables.len() == 0 {
        Seq::empty()
    } else {
        tables_bytes(tables.drop_last()) + table_bytes(tables.last())
    }
}

pub open spec fn keyspace_bytes(entry: (Seq<char>, OptionsRecord)) -> Seq<u8> {
    len_prefixed(utf8_encoded(entry.0)) + options_bytes(entry.1)
}

pub open spec fn keyspaces_bytes(entries: Seq<(Seq<char>, OptionsRecord)>) -> Seq<u8>
    decreases entries.len(),
{
    if entries.len() == 0 {
        Seq::empty()
    } else {
        keyspaces_bytes(entries.drop_last()) + keyspace_bytes(entries.last())
    }
}

pub open spec fn group_bytes(entry: (Seq<char>, Seq<TableRecord>)) -> Seq<u8> {
    len_prefixed(utf8_encoded(entry.0)) + le32(entry.1.len() as u32) + tables_bytes(entry.1)
}

pub open spec fn groups_bytes(entries: Seq<(Seq<char>, Seq<TableRecord>)>) -> Seq<u8>
    decreases entries.len(),
{
    if entries.len() == 0 {
        Seq::empty()
    } else {
        groups_bytes(entries.drop_last()) + group_bytes(entries.last())
    }
}

pub open spec fn payload_bytes(m: ManifestRecord) -> Seq<u8> {
    le64(m.wal_replay_floor) + le32(m.keyspaces.len() as u32) + keyspaces_bytes(m.keyspaces) + le32(
        m.tables.len() as u32,
    ) + groups_bytes(m.tables)
}

pub open spec fn header_bytes(payload: Seq<u8>) -> Seq<u8> {
    le32(MANIFEST_MAGIC) + le16(MANIFEST_VERSION) + le32(payload.len() as u32) + le32(checksum_spec(payload))
}

/// The bytes of a manifest file.
pub open spec fn manifest_bytes(m: ManifestRecord) -> Seq<u8> {
    header_bytes(payload_bytes(m)) + payload_bytes(m)
}

// ---------------------------------------------------------------- limits

/// A custom extractor name reads back as the same text.
pub open spec fn extractor_readable(e: ExtractorRecord) -> bool {
    match e {
        ExtractorRecord::Custom(name) => utf8_encoded(name).len() <= u32::MAX && utf8_decoded(utf8_encoded(name))
            == Some(name),
        _ => true,
    }
}


pub open spec fn extractor_fits(e: ExtractorRecord) -> bool {
    match e {
        ExtractorRecord::Custom(name) => utf8_encoded(name).len() <= u32::MAX,
        _ => true,
    }
}

pub open spec fn keyspace_fits(entry: (Seq<char>, OptionsRecord)) -> bool {
    utf8_encoded(entry.0).len() <= u32::MAX && extractor_fits(entry.1.prefix_extractor)
}

pub open spec fn table_fits(t: TableRecord) -> bool {
    t.smallest_user_key.len() <= u32::MAX && t.largest_user_key.len() <= u32::MAX
}

pub open spec fn group_fits(entry: (Seq<char>, Seq<TableRecord>)) -> bool {
    &&& utf8_encoded(entry.0).len() <= u32::MAX
    &&& entry.1.len() <= u32::MAX
    &&& forall|j: int| 0 <= j < entry.1.len() ==> table_fits(#[trigger] entry.1[j])
}

/// Every count and length of the payload fits its `u32` field.
pub open spec fn payload_fits(m: ManifestRecord) -> bool {
    &&& m.keyspaces.len() <= u32::MAX
    &&& forall|i: int| 0 <= i < m.keyspaces.len() ==> keyspace_fits(#[trigger] m.keyspaces[i])
    &&& m.tables.len() <= u32::MAX
    &&& forall|i: int| 0 <= i < m.tables.len() ==> group_fits(#[trigger] m.tables[i])
}

/// The manifest can be written: its payload fits, and so does the
/// payload's length.
pub open spec fn manifest_fits(m: ManifestRecord) -> bool {
    payload_fits(m) && payload_bytes(m).len() <= u32::MAX
}

// ---------------------------------------------------------------- reading

/// What reading a field at a position gives: the value and the position
/// after it, or the fault that stops the read.
pub type Read<T> = core::result::Result<(T, int), Fault>;

/// A malformed manifest: `invalid manifest: ` and the detail.
pub open spec fn manifest_fault(detail: Seq<char>) -> Fault {
    Fault { kind: ErrorKind::InvalidFormat, message: "invalid manifest: "@ + detail, exact: true }
}

pub open spec fn fault_of(kind: ErrorKind, message: Seq<char>) -> Fault {
    Fault { kind, message, exact: true }
}

pub open spec fn q_u8(s: Seq<u8>, p: int) -> Read<u8> {
    match u8_at(s, p) {
        Some(x) => Ok(x),
        None => Err(manifest_fault("short u8"@)),
    }
}

pub open spec fn q_u32(s: Seq<u8>, p: int) -> Read<u32> {
    match u32_at(s, p) {
        Some(x) => Ok(x),
        None => Err(manifest_fault("short u32"@)),
    }
}

pub open spec fn q_u64(s: Seq<u8>, p: int) -> Read<u64> {
    match u64_at(s, p) {
        Some(x) => Ok(x),
        None => Err(manifest_fault("short u64"@)),
    }
}

/// A `u32` length and that many bytes.
pub open spec fn q_bytes(s: Seq<u8>, p: int) -> Read<Seq<u8>> {
    match q_u32(s, p) {
        Err(f) => Err(f),
        Ok((n, p1)) => match take_at(s, p1, n as int) {
            Some(x) => Ok(x),
            None => Err(manifest_fault("short bytes"@)),
        },
    }
}

/// UTF-8 text stored as bytes; `not_utf8` is the message where it is not.
pub open spec fn q_text(s: Seq<u8>, p: int, not_utf8: Seq<char>) -> Read<Seq<char>> {
    match q_bytes(s, p) {
        Err(f) => Err(f),
        Ok((b, p1)) => match utf8_decoded(b) {
            Some(t) => Ok((t, p1)),
            None => Err(fault_of(ErrorKind::InvalidFormat, not_utf8)),
        },
    }
}

pub open spec fn q_bool(s: Seq<u8>, p: int) -> Read<bool> {
    match q_u8(s, p) {
        Err(f) => Err(f),
        Ok((v, p1)) => if v == 0 {
            Ok((false, p1))
        } else if v == 1 {
            Ok((true, p1))
        } else {
            Err(fault_of(ErrorKind::InvalidFormat, "invalid manifest bool "@ + decimal(v as nat)))
        },
    }
}

pub open spec fn q_usize(s: Seq<u8>, p: int) -> Read<usize> {
    match q_u64(s, p) {
        Err(f) => Err(f),
        Ok((v, p1)) => if v <= usize::MAX {
            Ok((v as usize, p1))
        } else {
            Err(fault_of(ErrorKind::UnsupportedFormat, "manifest usize field does not fit this platform"@))
        },
    }
}

pub open spec fn compression_of_tag(tag: u8) -> Option<CompressionProfile> {
    if tag == 0 {
        Some(CompressionProfile::Uncompressed)
    } else if tag == 1 {
        Some(CompressionProfile::Fast)
    } else {
        None
    }
}

pub open spec fn q_compression(s: Seq<u8>, p: int) -> Read<CompressionProfile> {
    match q_u8(s, p) {
        Err(f) => Err(f),
        Ok((tag, p1)) => match compression_of_tag(tag) {
            Some(c) => Ok((c, p1)),
            None => Err(
                fault_of(ErrorKind::InvalidFormat, "unknown manifest compression profile "@ + decimal(tag as nat)),
            ),
        },
    }
}

pub open spec fn q_filter(s: Seq<u8>, p: int) -> Read<FilterPolicy> {
    match q_u8(s, p) {
        Err(f) => Err(f),
        Ok((tag, p1)) => if tag == 0 {
            Ok((FilterPolicy::Disabled, p1))
        } else if tag == 1 {
            match q_u8(s, p1) {
                Err(f) => Err(f),
                Ok((bits, p2)) => Ok((FilterPolicy::Bloom { bits_per_key: bits }, p2)),
            }
        } else {
            Err(fault_of(ErrorKind::InvalidFormat, "unknown manifest filter policy "@ + decimal(tag as nat)))
        },
    }
}

pub open spec fn q_extractor(s: Seq<u8>, p: int) -> Read<ExtractorRecord> {
    match q_u8(s, p) {
        Err(f) => Err(f),
        Ok((tag, p1)) => if tag == 0 {
            match q_usize(s, p1) {
                Err(f) => Err(f),
                Ok((n, p2)) => Ok((ExtractorRecord::FixedLen(n), p2)),
            }
        } else if tag == 1 {
            match q_u8(s, p1) {
                Err(f) => Err(f),
                Ok((b, p2)) => Ok((ExtractorRecord::Separator(b), p2)),
            }
        } else if tag == 2 {
            match q_text(s, p1, "manifest custom prefix extractor is not UTF-8"@) {
                Err(f) => Err(f),
                Ok((name, p2)) => Ok((ExtractorRecord::Custom(name), p2)),
            }
        } else if tag == 3 {
            Ok((ExtractorRecord::Disabled, p1))
        } else {
            Err(fault_of(ErrorKind::InvalidFormat, "unknown manifest prefix extractor "@ + decimal(tag as nat)))
        },
    }
}

pub open spec fn q_prefix_filter(s: Seq<u8>, p: int) -> Read<PrefixFilterPolicy> {
    match q_u8(s, p) {
        Err(f) => Err(f),
        Ok((tag, p1)) => if tag == 0 {
            Ok((PrefixFilterPolicy::Disabled, p1))
        } else if tag == 1 {
            match q_u8(s, p1) {
                Err(f) => Err(f),
                Ok((bits, p2)) => Ok((PrefixFilterPolicy::Bloom { bits_per_prefix: bits }, p2)),
            }
        } else {
            Err(
                fault_of(ErrorKind::InvalidFormat, "unknown manifest prefix filter policy "@ + decimal(tag as nat)),
            )
        },
    }
}

pub open spec fn index_of_tag(tag: u8) -> Option<IndexSearchPolicy> {
    if tag == 0 {
        Some(IndexSearchPolicy::Linear)
    } else if tag == 1 {
        Some(IndexSearchPolicy::Binary)
    } else if tag == 2 {
        Some(IndexSearchPolicy::Eytzinger)
    } else if tag == 3 {
        Some(IndexSearchPolicy::GallopingWithHint)
    } else if tag == 4 {
        Some(IndexSearchPolicy::Auto)
    } else {
        None
    }
}

pub open spec fn q_index(s: Seq<u8>, p: int) -> Read<IndexSearchPolicy> {
    match q_u8(s, p) {
        Err(f) => Err(f),
        Ok((tag, p1)) => match index_of_tag(tag) {
            Some(i) => Ok((i, p1)),
            None => Err(
                fault_of(ErrorKind::InvalidFormat, "unknown manifest index search policy "@ + decimal(tag as nat)),
            ),
        },
    }
}

pub open spec fn q_options(s: Seq<u8>, p: int) -> Read<OptionsRecord> {
    match q_bool(s, p) {
        Err(f) => Err(f),
        Ok((allow_empty_keys, p1)) => match q_compression(s, p1) {
            Err(f) => Err(f),
            Ok((compression, p2)) => match q_usize(s, p2) {
                Err(f) => Err(f),
                Ok((block_bytes, p3)) => match q_filter(s, p3) {
                    Err(f) => Err(f),
                    Ok((filter_policy, p4)) => match q_extractor(s, p4) {
                        Err(f) => Err(f),
                        Ok((prefix_extractor, p5)) => match q_prefix_filter(s, p5) {
                            Err(f) => Err(f),
                            Ok((prefix_filter_policy, p6)) => match q_index(s, p6) {
                                Err(f) => Err(f),
                                Ok((index_search_policy, p7)) => match q_usize(s, p7) {
                                    Err(f) => Err(f),
                                    Ok((blob_threshold_bytes, p8)) => Ok(
                                        (
                                            OptionsRecord {
                                                allow_empty_keys,
                                                compression,
                                                block_bytes,
                                                filter_policy,
                                                prefix_extractor,
                                                prefix_filter_policy,
                                                index_search_policy,
                                                blob_threshold_bytes,
                                            },
                                            p8,
                                        ),
                                    ),
                                },
                            },
                        },
                    },
                },
            },
        },
    }
}

pub open spec fn q_codec(s: Seq<u8>, p: int) -> Read<CodecId> {
    match q_u8(s, p) {
        Err(f) => Err(f),
        Ok((tag, p1)) => match codec_of_tag(tag) {
            Some(c) => Ok((c, p1)),
            None => Err(
                fault_of(ErrorKind::UnsupportedFormat, "unknown manifest table codec "@ + decimal(tag as nat)),
            ),
        },
    }
}

pub open spec fn q_table(s: Seq<u8>, p: int) -> Read<TableRecord> {
    match q_u64(s, p) {
        Err(f) => Err(f),
        Ok((id, p1)) => match q_u32(s, p1) {
            Err(f) => Err(f),
            Ok((level, p2)) => match q_bytes(s, p2) {
                Err(f) => Err(f),
                Ok((smallest_user_key, p3)) => match q_bytes(s, p3) {
                    Err(f) => Err(f),
                    Ok((largest_user_key, p4)) => match q_u64(s, p4) {
                        Err(f) => Err(f),
                        Ok((smallest_sequence, p5)) => match q_u64(s, p5) {
                            Err(f) => Err(f),
                            Ok((largest_sequence, p6)) => match q_codec(s, p6) {
                                Err(f) => Err(f),
                                Ok((codec, p7)) => Ok(
                                    (
                                        TableRecord {
                                            id,
                                            level,
                                            smallest_user_key,
                                            largest_user_key,
                                            smallest_sequence,
                                            largest_sequence,
                                            codec,
                                        },
                                        p7,
                                    ),
                                ),
                            },
                        },
                    },
                },
            },
        },
    }
}

/// `n` tables, one after the other.
pub open spec fn q_tables(s: Seq<u8>, p: int, n: nat) -> Read<Seq<TableRecord>>
    decreases n,
{
    if n == 0 {
        Ok((Seq::empty(), p))
    } else {
        match q_tables(s, p, (n - 1) as nat) {
            Err(f) => Err(f),
            Ok((tables, p1)) => match q_table(s, p1) {
                Err(f) => Err(f),
                Ok((t, p2)) => Ok((tables.push(t), p2)),
            },
        }
    }
}

pub open spec fn q_keyspace(s: Seq<u8>, p: int) -> Read<(Seq<char>, OptionsRecord)> {
    match q_text(s, p, "manifest keyspace name is not valid UTF-8"@) {
        Err(f) => Err(f),
        Ok((name, p1)) => match q_options(s, p1) {
            Err(f) => Err(f),
            Ok((options, p2)) => Ok(((name, options), p2)),
        },
    }
}

pub open spec fn q_keyspaces(s: Seq<u8>, p: int, n: nat) -> Read<Seq<(Seq<char>, OptionsRecord)>>
    decreases n,
{
    if n == 0 {
        Ok((Seq::empty(), p))
    } else {
        match q_keyspaces(s, p, (n - 1) as nat) {
            Err(f) => Err(f),
            Ok((entries, p1)) => match q_keyspace(s, p1) {
                Err(f) => Err(f),
                Ok((e, p2)) => Ok((entries.push(e), p2)),
            },
        }
    }
}

pub open spec fn q_group(s: Seq<u8>, p: int) -> Read<(Seq<char>, Seq<TableRecord>)> {
    match q_text(s, p, "manifest table keyspace is not valid UTF-8"@) {
        Err(f) => Err(f),
        Ok((name, p1)) => match q_u32(s, p1) {
            Err(f) => Err(f),
            Ok((count, p2)) => match q_tables(s, p2, count as nat) {
                Err(f) => Err(f),
                Ok((tables, p3)) => Ok(((name, tables), p3)),
            },
        },
    }
}

pub open spec fn q_groups(s: Seq<u8>, p: int, n: nat) -> Read<Seq<(Seq<char>, Seq<TableRecord>)>>
    decreases n,
{
    if n == 0 {
        Ok((Seq::empty(), p))
    } else {
        match q_groups(s, p, (n - 1) as nat) {
            Err(f) => Err(f),
            Ok((entries, p1)) => match q_group(s, p1) {
                Err(f) => Err(f),
                Ok((e, p2)) => Ok((entries.push(e), p2)),
            },
        }
    }
}

/// Puts the entries one after the other: a name read twice keeps its last
/// value, and the names end up in byte order.
pub open spec fn put_all<V>(v: Seq<(Seq<char>, V)>, entries: Seq<(Seq<char>, V)>) -> Seq<(Seq<char>, V)>
    decreases entries.len(),
{
    if entries.len() == 0 {
        v
    } else {
        put_entry(put_all(v, entries.drop_last()), entries.last().0, entries.last().1)
    }
}

/// What a payload holds, or why it cannot be read.
pub open spec fn payload_spec(s: Seq<u8>) -> core::result::Result<ManifestRecord, Fault> {
    match q_u64(s, 0) {
        Err(f) => Err(f),
        Ok((floor, p1)) => match q_u32(s, p1) {
            Err(f) => Err(f),
            Ok((keyspace_count, p2)) => match q_keyspaces(s, p2, keyspace_count as nat) {
                Err(f) => Err(f),
                Ok((keyspaces, p3)) => match q_u32(s, p3) {
                    Err(f) => Err(f),
                    Ok((group_count, p4)) => match q_groups(s, p4, group_count as nat) {
                        Err(f) => Err(f),
                        Ok((groups, p5)) => if p5 != s.len() {
                            Err(manifest_fault("trailing payload bytes"@))
                        } else {
                            Ok(
                                ManifestRecord {
                                    wal_replay_floor: floor,
                                    keyspaces: put_all(Seq::empty(), keyspaces),
                                    tables: put_all(Seq::empty(), groups),
                                },
                            )
                        },
                    },
                },
            },
        },
    }
}

pub open spec fn header_magic(s: Seq<u8>) -> u32 {
    spec_u32_from_le_bytes(s.subrange(0, 4))
}

pub open spec fn header_version(s: Seq<u8>) -> u16 {
    spec_u16_from_le_bytes(s.subrange(4, 6))
}

pub open spec fn header_payload_len(s: Seq<u8>) -> u32 {
    spec_u32_from_le_bytes(s.subrange(6, 10))
}

pub open spec fn header_checksum(s: Seq<u8>) -> u32 {
    spec_u32_from_le_bytes(s.subrange(10, 14))
}

/// What a manifest file holds, or why it cannot be read.
pub open spec fn manifest_spec(s: Seq<u8>) -> core::result::Result<ManifestRecord, Fault> {
    if s.len() < MANIFEST_HEADER_LEN {
        Err(manifest_fault("short header"@))
    } else if header_magic(s) != MANIFEST_MAGIC {
        Err(fault_of(ErrorKind::Corruption, "manifest magic mismatch"@))
    } else if header_version(s) != MANIFEST_VERSION {
        Err(
            fault_of(ErrorKind::UnsupportedFormat, "unsupported manifest version "@ + decimal(header_version(s) as nat)),
        )
    } else if s.len() != MANIFEST_HEADER_LEN + header_payload_len(s) {
        Err(fault_of(ErrorKind::Corruption, "manifest length mismatch"@))
    } else if checksum_spec(s.subrange(MANIFEST_HEADER_LEN as int, s.len() as int)) != header_checksum(s) {
        Err(fault_of(ErrorKind::Corruption, "manifest checksum mismatch"@))
    } else {
        payload_spec(s.subrange(MANIFEST_HEADER_LEN as int, s.len() as int))
    }
}

// ---------------------------------------------------------------- writing

fn put_bool(out: &mut Vec<u8>, value: bool)
    ensures
        final(out)@ == old(out)@.push(bool_byte(value)),
{
    put_u8(out, if value { 1 } else { 0 });
}

fn put_compression(out: &mut Vec<u8>, value: CompressionProfile)
    ensures
        final(out)@ == old(out)@.push(compression_tag(value)),
{
    put_u8(
        out,
        match value {
            CompressionProfile::Uncompressed => 0,
            CompressionProfile::Fast => 1,
        },
    );
}

fn put_filter(out: &mut Vec<u8>, value: FilterPolicy)
    ensures
        final(out)@ == old(out)@ + filter_bytes(value),
{
    let ghost start = out@;
    match value {
        FilterPolicy::Disabled => put_u8(out, 0),
        FilterPolicy::Bloom { bits_per_key } => {
            put_u8(out, 1);
            put_u8(out, bits_per_key);
        },
    }
    proof {
        assert(out@ =~= start + filter_bytes(value));
    }
}

fn put_prefix_filter(out: &mut Vec<u8>, value: PrefixFilterPolicy)
    ensures
        final(out)@ == old(out)@ + prefix_filter_bytes(value),
{
    let ghost start = out@;
    match value {
        PrefixFilterPolicy::Disabled => put_u8(out, 0),
        PrefixFilterPolicy::Bloom { bits_per_prefix } => {
            put_u8(out, 1);
            put_u8(out, bits_per_prefix);
        },
    }
    proof {
        assert(out@ =~= start + prefix_filter_bytes(value));
    }
}

fn put_index(out: &mut Vec<u8>, value: IndexSearchPolicy)
    ensures
        final(out)@ == old(out)@.push(index_tag(value)),
{
    put_u8(
        out,
        match value {
            IndexSearchPolicy::Linear => 0,
            IndexSearchPolicy::Binary => 1,
            IndexSearchPolicy::Eytzinger => 2,
            IndexSearchPolicy::GallopingWithHint => 3,
            IndexSearchPolicy::Auto => 4,
        },
    );
}

/// Appends a name as length-prefixed UTF-8.
fn put_name(out: &mut Vec<u8>, name: &str) -> (r: Result<()>)
    ensures
        r is Ok <==> utf8_encoded(name@).len() <= u32::MAX,
        r is Ok ==> final(out)@ == old(out)@ + len_prefixed(utf8_encoded(name@)),
        utf8_decoded(utf8_encoded(name@)) == Some(name@),
        r matches Err(e) ==> e.kind() == ErrorKind::InvalidOptions,
{
    put_bytes(out, text_bytes(name), "manifest byte field exceeds u32::MAX")
}

fn put_extractor(out: &mut Vec<u8>, value: &PrefixExtractor) -> (r: Result<()>)
    ensures
        r is Ok <==> extractor_fits(extractor_record(*value)),
        r is Ok ==> final(out)@ == old(out)@ + extractor_bytes(extractor_record(*value)),
        r is Ok ==> extractor_readable(extractor_record(*value)),
        r matches Err(e) ==> e.kind() == ErrorKind::InvalidOptions,
{
    let ghost start = out@;
    match value {
        PrefixExtractor::FixedLen(len) => {
            put_u8(out, 0);
            put_u64(out, *len as u64);
        },
        PrefixExtractor::Separator(separator) => {
            put_u8(out, 1);
            put_u8(out, *separator);
        },
        PrefixExtractor::Custom(name) => {
            let mut field: Vec<u8> = Vec::new();
            let put = put_name(&mut field, name.as_str());
            if let Err(e) = put {
                return Err(e);
            }
            put_u8(out, 2);
            crate::bytes::append_bytes(out, field.as_slice());
        },
        PrefixExtractor::Disabled => put_u8(out, 3),
    }
    proof {
        assert(out@ =~= start + extractor_bytes(extractor_record(*value)));
    }
    Ok(())
}

/// Appends keyspace options.
pub fn put_options(out: &mut Vec<u8>, options: &BucketOptions) -> (r: Result<()>)
    ensures
        r is Ok <==> extractor_fits(options_record(*options).prefix_extractor),
        r is Ok ==> final(out)@ == old(out)@ + options_bytes(options_record(*options)),
        r is Ok ==> extractor_readable(options_record(*options).prefix_extractor),
        r matches Err(e) ==> e.kind() == ErrorKind::InvalidOptions,
{
    let ghost start = out@;
    let mut field: Vec<u8> = Vec::new();
    if let Err(e) = put_extractor(&mut field, &options.prefix_extractor) {
        return Err(e);
    }
    put_bool(out, options.allow_empty_keys);
    put_compression(out, options.compression);
    put_u64(out, options.block_bytes as u64);
    put_filter(out, options.filter_policy);
    crate::bytes::append_bytes(out, field.as_slice());
    put_prefix_filter(out, options.prefix_filter_policy);
    put_index(out, options.index_search_policy);
    put_u64(out, options.blob_threshold_bytes as u64);
    proof {
        assert(out@ =~= start + options_bytes(options_record(*options)));
    }
    Ok(())
}

/// Appends what the manifest records of a table.
pub fn put_table(out: &mut Vec<u8>, table: &TableProperties) -> (r: Result<()>)
    ensures
        r is Ok <==> table_fits(table_record(*table)),
        r is Ok ==> final(out)@ == old(out)@ + table_bytes(table_record(*table)),
        r matches Err(e) ==> e.kind() == ErrorKind::InvalidOptions,
{
    if table.smallest_user_key.len() > 0xffff_ffff || table.largest_user_key.len() > 0xffff_ffff {
        return Err(Error::invalid_options("manifest byte field exceeds u32::MAX"));
    }
    let ghost start = out@;
    put_u64(out, table.id.0);
    put_u32(out, table.level.0);
    let a = put_bytes(out, table.smallest_user_key.as_slice(), "manifest byte field exceeds u32::MAX");
    let b = put_bytes(out, table.largest_user_key.as_slice(), "manifest byte field exceeds u32::MAX");
    put_u64(out, table.smallest_sequence.get());
    put_u64(out, table.largest_sequence.get());
    put_codec(out, table.codec);
    proof {
        assert(a is Ok && b is Ok);
        assert(out@ =~= start + table_bytes(table_record(*table)));
    }
    Ok(())
}

/// Appends a keyspace's table list: its name, the count and the tables.
fn put_group(out: &mut Vec<u8>, name: &String, tables: &Vec<TableProperties>) -> (r: Result<()>)
    ensures
        r is Ok <==> group_fits((name@, list_records(tables@))),
        r is Ok ==> final(out)@ == old(out)@ + group_bytes((name@, list_records(tables@))),
        r matches Err(e) ==> e.kind() == ErrorKind::InvalidOptions,
{
    let ghost start = out@;
    let ghost records = list_records(tables@);
    let mut field: Vec<u8> = Vec::new();
    if let Err(e) = put_name(&mut field, name.as_str()) {
        return Err(e);
    }
    if tables.len() > 0xffff_ffff {
        return Err(Error::invalid_options("too many tables for manifest keyspace"));
    }
    crate::bytes::append_bytes(out, field.as_slice());
    put_u32(out, tables.len() as u32);
    let ghost head = out@;
    let mut i: usize = 0;
    while i < tables.len()
        invariant
            i <= tables@.len(),
            records == list_records(tables@),
            out@ == head + tables_bytes(records.take(i as int)),
            forall|j: int| 0 <= j < i ==> table_fits(#[trigger] records[j]),
        decreases tables@.len() - i,
    {
        proof {
            assert(records.take(i + 1).drop_last() =~= records.take(i as int));
            assert(records[i as int] == table_record(tables@[i as int]));
        }
        if let Err(e) = put_table(out, &tables[i]) {
            return Err(e);
        }
        i = i + 1;
    }
    proof {
        assert(records.take(i as int) =~= records);
        assert(out@ =~= start + group_bytes((name@, records)));
    }
    Ok(())
}

/// The payload of the manifest of a state.
pub fn encode_state(state: &ManifestState) -> (r: Result<Vec<u8>>)
    ensures
        r is Ok <==> payload_fits(manifest_record(*state)),
        r matches Ok(bytes) ==> bytes@ == payload_bytes(manifest_record(*state)),
        r is Ok ==> forall|j: int|
            0 <= j < manifest_record(*state).keyspaces.len() ==> extractor_readable(
                #[trigger] manifest_record(*state).keyspaces[j].1.prefix_extractor,
            ),
        r matches Err(e) ==> e.kind() == ErrorKind::InvalidOptions,
{
    let ghost m = manifest_record(*state);
    let keyspaces = state.keyspaces();
    let tables = state.tables();
    if keyspaces.len() > 0xffff_ffff {
        return Err(Error::invalid_options("too many keyspaces for manifest"));
    }
    let mut out: Vec<u8> = Vec::new();
    put_u64(&mut out, state.wal_replay_floor().get());
    put_u32(&mut out, keyspaces.len() as u32);
    let ghost head = out@;
    let mut i: usize = 0;
    while i < keyspaces.len()
        invariant
            i <= keyspaces@.len(),
            m == manifest_record(*state),
            keyspaces@ == state.spec_keyspaces(),
            out@ == head + keyspaces_bytes(m.keyspaces.take(i as int)),
            forall|j: int| 0 <= j < i ==> keyspace_fits(#[trigger] m.keyspaces[j]),
            forall|j: int| 0 <= j < i ==> extractor_readable(#[trigger] m.keyspaces[j].1.prefix_extractor),
        decreases keyspaces@.len() - i,
    {
        proof {
            assert(m.keyspaces.take(i + 1).drop_last() =~= m.keyspaces.take(i as int));
            assert(m.keyspaces[i as int] == (keyspaces@[i as int].0@, options_record(keyspaces@[i as int].1)));
        }
        let ghost before = out@;
        if let Err(e) = put_name(&mut out, keyspaces[i].0.as_str()) {
            return Err(e);
        }
        if let Err(e) = put_options(&mut out, &keyspaces[i].1) {
            return Err(e);
        }
        proof {
            assert(out@ =~= before + keyspace_bytes(m.keyspaces[i as int]));
            assert(m.keyspaces.take(i + 1).last() == m.keyspaces[i as int]);
        }
        i = i + 1;
    }
    proof {
        assert(m.keyspaces.take(i as int) =~= m.keyspaces);
    }
    if tables.len() > 0xffff_ffff {
        return Err(Error::invalid_options("too many table keyspaces for manifest"));
    }
    put_u32(&mut out, tables.len() as u32);
    let ghost middle = out@;
    let mut k: usize = 0;
    while k < tables.len()
        invariant
            k <= tables@.len(),
            m == manifest_record(*state),
            tables@ == state.spec_tables(),
            out@ == middle + groups_bytes(m.tables.take(k as int)),
            forall|j: int| 0 <= j < k ==> group_fits(#[trigger] m.tables[j]),
            forall|j: int|
                0 <= j < m.keyspaces.len() ==> extractor_readable(#[trigger] m.keyspaces[j].1.prefix_extractor),
        decreases tables@.len() - k,
    {
        proof {
            assert(m.tables.take(k + 1).drop_last() =~= m.tables.take(k as int));
            assert(m.tables[k as int] == (tables@[k as int].0@, list_records(tables@[k as int].1@)));
            assert(m.tables.take(k + 1).last() == m.tables[k as int]);
        }
        if let Err(e) = put_group(&mut out, &tables[k].0, &tables[k].1) {
            return Err(e);
        }
        k = k + 1;
    }
    proof {
        assert(m.tables.take(k as int) =~= m.tables);
        assert(out@ =~= payload_bytes(m));
    }
    Ok(out)
}

/// The bytes of the manifest file of a state: the header, then the
/// payload.
pub fn encode_manifest(state: &ManifestState) -> (r: Result<Vec<u8>>)
    ensures
        r is Ok <==> manifest_fits(manifest_record(*state)),
        r matches Ok(bytes) ==> bytes@ == manifest_bytes(manifest_record(*state)),
        r matches Ok(bytes) ==> manifest_spec(bytes@) == Ok::<ManifestRecord, Fault>(manifest_record(*state)),
        r matches Err(e) ==> e.kind() == ErrorKind::InvalidOptions,
{
    let keyspaces = state.keyspaces();
    let tables = state.tables();
    proof {
        assert(entry_names(keyspace_records(keyspaces@)) =~= names_of(keyspaces@));
        assert(entry_names(group_records(tables@)) =~= names_of(tables@));
    }
    let payload = match encode_state(state) {
        Ok(payload) => payload,
        Err(e) => return Err(e),
    };
    if payload.len() > 0xffff_ffff {
        return Err(Error::invalid_options("manifest payload exceeds u32::MAX"));
    }
    let mut out: Vec<u8> = Vec::new();
    put_u32(&mut out, MANIFEST_MAGIC);
    put_u16(&mut out, MANIFEST_VERSION);
    put_u32(&mut out, payload.len() as u32);
    put_u32(&mut out, checksum(payload.as_slice()));
    crate::bytes::append_bytes(&mut out, payload.as_slice());
    proof {
        assert(out@ =~= manifest_bytes(manifest_record(*state)));
        crate::manifest_round_trip::lemma_manifest_round_trip(manifest_record(*state));
    }
    Ok(out)
}

// ---------------------------------------------------------------- decoding

/// `r` is what reading a field gives: on success its value, the cursor at
/// `end`; on failure the error of the fault.
pub open spec fn reads_as<T>(q: Read<T>, r: Result<T>, end: int) -> bool {
    match q {
        Ok((v, p)) => r == Ok::<T, Error>(v) && end == p,
        Err(f) => r matches Err(e) && fault_is(e, f),
    }
}

fn invalid_manifest(detail: &str) -> (r: Error)
    ensures
        fault_is(r, manifest_fault(detail@)),
{
    let mut message = String::from_str("invalid manifest: ");
    message.append(detail);
    Error::InvalidFormat { message }
}

/// Error with a message and a number after it.
fn numbered(kind: ErrorKind, text: &str, value: u64) -> (r: Error)
    requires
        kind != ErrorKind::ReadOnly,
    ensures
        fault_is(r, fault_of(kind, text@ + decimal(value as nat))),
{
    let mut message = String::from_str(text);
    push_decimal(&mut message, value);
    match kind {
        ErrorKind::InvalidFormat => Error::InvalidFormat { message },
        ErrorKind::UnsupportedFormat => Error::UnsupportedFormat { message },
        ErrorKind::Corruption => Error::Corruption { message },
        ErrorKind::InvalidOptions => Error::InvalidOptions { message },
        ErrorKind::ReadOnly => Error::ReadOnly,
    }
}

fn take_u8(c: &mut Cursor) -> (r: Result<u8>)
    requires
        old(c).valid(),
    ensures
        final(c).valid(),
        final(c).data() == old(c).data(),
        reads_as(q_u8(old(c).data(), old(c).pos()), r, final(c).pos()),
{
    match c.read_u8() {
        Some(v) => Ok(v),
        None => Err(invalid_manifest("short u8")),
    }
}

fn take_u32(c: &mut Cursor) -> (r: Result<u32>)
    requires
        old(c).valid(),
    ensures
        final(c).valid(),
        final(c).data() == old(c).data(),
        reads_as(q_u32(old(c).data(), old(c).pos()), r, final(c).pos()),
{
    match c.read_u32() {
        Some(v) => Ok(v),
        None => Err(invalid_manifest("short u32")),
    }
}

fn take_u64(c: &mut Cursor) -> (r: Result<u64>)
    requires
        old(c).valid(),
    ensures
        final(c).valid(),
        final(c).data() == old(c).data(),
        reads_as(q_u64(old(c).data(), old(c).pos()), r, final(c).pos()),
{
    match c.read_u64() {
        Some(v) => Ok(v),
        None => Err(invalid_manifest("short u64")),
    }
}

fn take_bytes(c: &mut Cursor) -> (r: Result<Vec<u8>>)
    requires
        old(c).valid(),
    ensures
        final(c).valid(),
        final(c).data() == old(c).data(),
        match q_bytes(old(c).data(), old(c).pos()) {
            Ok((v, p)) => r matches Ok(bytes) && bytes@ == v && final(c).pos() == p,
            Err(f) => r matches Err(e) && fault_is(e, f),
        },
{
    let len = match take_u32(c) {
        Ok(len) => len,
        Err(e) => return Err(e),
    };
    match c.read_exact(len as usize) {
        Some(bytes) => Ok(crate::bytes::to_vec(bytes)),
        None => Err(invalid_manifest("short bytes")),
    }
}

fn take_text(c: &mut Cursor, not_utf8: &str) -> (r: Result<String>)
    requires
        old(c).valid(),
    ensures
        final(c).valid(),
        final(c).data() == old(c).data(),
        match q_text(old(c).data(), old(c).pos(), not_utf8@) {
            Ok((v, p)) => r matches Ok(text) && text@ == v && final(c).pos() == p,
            Err(f) => r matches Err(e) && fault_is(e, f),
        },
{
    let bytes = match take_bytes(c) {
        Ok(bytes) => bytes,
        Err(e) => return Err(e),
    };
    match text_from_utf8(bytes) {
        Some(text) => Ok(text),
        None => Err(Error::invalid_format(not_utf8)),
    }
}

fn take_bool(c: &mut Cursor) -> (r: Result<bool>)
    requires
        old(c).valid(),
    ensures
        final(c).valid(),
        final(c).data() == old(c).data(),
        reads_as(q_bool(old(c).data(), old(c).pos()), r, final(c).pos()),
{
    match take_u8(c) {
        Err(e) => Err(e),
        Ok(0) => Ok(false),
        Ok(1) => Ok(true),
        Ok(v) => Err(numbered(ErrorKind::InvalidFormat, "invalid manifest bool ", v as u64)),
    }
}

fn take_usize(c: &mut Cursor) -> (r: Result<usize>)
    requires
        old(c).valid(),
    ensures
        final(c).valid(),
        final(c).data() == old(c).data(),
        reads_as(q_usize(old(c).data(), old(c).pos()), r, final(c).pos()),
{
    match take_u64(c) {
        Err(e) => Err(e),
        Ok(v) => if v <= usize::MAX as u64 {
            Ok(v as usize)
        } else {
            Err(Error::unsupported_format("manifest usize field does not fit this platform"))
        },
    }
}

fn take_compression(c: &mut Cursor) -> (r: Result<CompressionProfile>)
    requires
        old(c).valid(),
    ensures
        final(c).valid(),
        final(c).data() == old(c).data(),
        reads_as(q_compression(old(c).data(), old(c).pos()), r, final(c).pos()),
{
    match take_u8(c) {
        Err(e) => Err(e),
        Ok(0) => Ok(CompressionProfile::Uncompressed),
        Ok(1) => Ok(CompressionProfile::Fast),
        Ok(tag) => Err(numbered(ErrorKind::InvalidFormat, "unknown manifest compression profile ", tag as u64)),
    }
}

fn take_filter(c: &mut Cursor) -> (r: Result<FilterPolicy>)
    requires
        old(c).valid(),
    ensures
        final(c).valid(),
        final(c).data() == old(c).data(),
        reads_as(q_filter(old(c).data(), old(c).pos()), r, final(c).pos()),
{
    match take_u8(c) {
        Err(e) => Err(e),
        Ok(0) => Ok(FilterPolicy::Disabled),
        Ok(1) => match take_u8(c) {
            Err(e) => Err(e),
            Ok(bits) => Ok(FilterPolicy::Bloom { bits_per_key: bits }),
        },
        Ok(tag) => Err(numbered(ErrorKind::InvalidFormat, "unknown manifest filter policy ", tag as u64)),
    }
}

fn take_prefix_filter(c: &mut Cursor) -> (r: Result<PrefixFilterPolicy>)
    requires
        old(c).valid(),
    ensures
        final(c).valid(),
        final(c).data() == old(c).data(),
        reads_as(q_prefix_filter(old(c).data(), old(c).pos()), r, final(c).pos()),
{
    match take_u8(c) {
        Err(e) => Err(e),
        Ok(0) => Ok(PrefixFilterPolicy::Disabled),
        Ok(1) => match take_u8(c) {
            Err(e) => Err(e),
            Ok(bits) => Ok(PrefixFilterPolicy::Bloom { bits_per_prefix: bits }),
        },
        Ok(tag) => Err(numbered(ErrorKind::InvalidFormat, "unknown manifest prefix filter policy ", tag as u64)),
    }
}

fn take_index(c: &mut Cursor) -> (r: Result<IndexSearchPolicy>)
    requires
        old(c).valid(),
    ensures
        final(c).valid(),
        final(c).data() == old(c).data(),
        reads_as(q_index(old(c).data(), old(c).pos()), r, final(c).pos()),
{
    match take_u8(c) {
        Err(e) => Err(e),
        Ok(0) => Ok(IndexSearchPolicy::Linear),
        Ok(1) => Ok(IndexSearchPolicy::Binary),
        Ok(2) => Ok(IndexSearchPolicy::Eytzinger),
        Ok(3) => Ok(IndexSearchPolicy::GallopingWithHint),
        Ok(4) => Ok(IndexSearchPolicy::Auto),
        Ok(tag) => Err(numbered(ErrorKind::InvalidFormat, "unknown manifest index search policy ", tag as u64)),
    }
}

fn take_extractor(c: &mut Cursor) -> (r: Result<PrefixExtractor>)
    requires
        old(c).valid(),
    ensures
        final(c).valid(),
        final(c).data() == old(c).data(),
        match q_extractor(old(c).data(), old(c).pos()) {
            Ok((v, p)) => r matches Ok(e) && extractor_record(e) == v && final(c).pos() == p,
            Err(f) => r matches Err(e) && fault_is(e, f),
        },
{
    match take_u8(c) {
        Err(e) => Err(e),
        Ok(0) => match take_usize(c) {
            Err(e) => Err(e),
            Ok(len) => Ok(PrefixExtractor::FixedLen(len)),
        },
        Ok(1) => match take_u8(c) {
            Err(e) => Err(e),
            Ok(separator) => Ok(PrefixExtractor::Separator(separator)),
        },
        Ok(2) => match take_text(c, "manifest custom prefix extractor is not UTF-8") {
            Err(e) => Err(e),
            Ok(name) => Ok(PrefixExtractor::Custom(name)),
        },
        Ok(3) => Ok(PrefixExtractor::Disabled),
        Ok(tag) => Err(numbered(ErrorKind::InvalidFormat, "unknown manifest prefix extractor ", tag as u64)),
    }
}

/// Reads keyspace options.
pub fn take_options(c: &mut Cursor) -> (r: Result<BucketOptions>)
    requires
        old(c).valid(),
    ensures
        final(c).valid(),
        final(c).data() == old(c).data(),
        match q_options(old(c).data(), old(c).pos()) {
            Ok((v, p)) => r matches Ok(o) && options_record(o) == v && final(c).pos() == p,
            Err(f) => r matches Err(e) && fault_is(e, f),
        },
{
    let allow_empty_keys = match take_bool(c) {
        Ok(v) => v,
        Err(e) => return Err(e),
    };
    let compression = match take_compression(c) {
        Ok(v) => v,
        Err(e) => return Err(e),
    };
    let block_bytes = match take_usize(c) {
        Ok(v) => v,
        Err(e) => return Err(e),
    };
    let filter_policy = match take_filter(c) {
        Ok(v) => v,
        Err(e) => return Err(e),
    };
    let prefix_extractor = match take_extractor(c) {
        Ok(v) => v,
        Err(e) => return Err(e),
    };
    let prefix_filter_policy = match take_prefix_filter(c) {
        Ok(v) => v,
        Err(e) => return Err(e),
    };
    let index_search_policy = match take_index(c) {
        Ok(v) => v,
        Err(e) => return Err(e),
    };
    let blob_threshold_bytes = match take_usize(c) {
        Ok(v) => v,
        Err(e) => return Err(e),
    };
    Ok(
        BucketOptions {
            allow_empty_keys,
            compression,
            block_bytes,
            filter_policy,
            prefix_extractor,
            prefix_filter_policy,
            index_search_policy,
            blob_threshold_bytes,
        },
    )
}

fn take_codec(c: &mut Cursor) -> (r: Result<CodecId>)
    requires
        old(c).valid(),
    ensures
        final(c).valid(),
        final(c).data() == old(c).data(),
        reads_as(q_codec(old(c).data(), old(c).pos()), r, final(c).pos()),
{
    match take_u8(c) {
        Err(e) => Err(e),
        Ok(0) => Ok(CodecId::Uncompressed),
        Ok(1) => Ok(CodecId::FastLz4Block),
        Ok(tag) => Err(numbered(ErrorKind::UnsupportedFormat, "unknown manifest table codec ", tag as u64)),
    }
}

/// Reads what the manifest records of a table; the table refers to no
/// blob file.
pub fn take_table(c: &mut Cursor) -> (r: Result<TableProperties>)
    requires
        old(c).valid(),
    ensures
        final(c).valid(),
        final(c).data() == old(c).data(),
        match q_table(old(c).data(), old(c).pos()) {
            Ok((v, p)) => r matches Ok(t) && table_record(t) == v && t.blob_file_ids@.len() == 0
                && t.blob_references@.len() == 0 && final(c).pos() == p,
            Err(f) => r matches Err(e) && fault_is(e, f),
        },
{
    let id = match take_u64(c) {
        Ok(v) => v,
        Err(e) => return Err(e),
    };
    let level = match take_u32(c) {
        Ok(v) => v,
        Err(e) => return Err(e),
    };
    let smallest_user_key = match take_bytes(c) {
        Ok(v) => v,
        Err(e) => return Err(e),
    };
    let largest_user_key = match take_bytes(c) {
        Ok(v) => v,
        Err(e) => return Err(e),
    };
    let smallest_sequence = match take_u64(c) {
        Ok(v) => v,
        Err(e) => return Err(e),
    };
    let largest_sequence = match take_u64(c) {
        Ok(v) => v,
        Err(e) => return Err(e),
    };
    let codec = match take_codec(c) {
        Ok(v) => v,
        Err(e) => return Err(e),
    };
    Ok(
        TableProperties {
            id: TableId(id),
            level: TableLevel(level),
            smallest_user_key,
            largest_user_key,
            smallest_sequence: Sequence::new(smallest_sequence),
            largest_sequence: Sequence::new(largest_sequence),
            codec,
            blob_file_ids: Vec::new(),
            blob_references: Vec::new(),
        },
    )
}

proof fn lemma_tables_err(s: Seq<u8>, p: int, k: nat, n: nat)
    requires
        k <= n,
        q_tables(s, p, k) is Err,
    ensures
        q_tables(s, p, n) == q_tables(s, p, k),
    decreases n - k,
{
    if k < n {
        lemma_tables_err(s, p, k, (n - 1) as nat);
    }
}

proof fn lemma_keyspaces_err(s: Seq<u8>, p: int, k: nat, n: nat)
    requires
        k <= n,
        q_keyspaces(s, p, k) is Err,
    ensures
        q_keyspaces(s, p, n) == q_keyspaces(s, p, k),
    decreases n - k,
{
    if k < n {
        lemma_keyspaces_err(s, p, k, (n - 1) as nat);
    }
}

proof fn lemma_groups_err(s: Seq<u8>, p: int, k: nat, n: nat)
    requires
        k <= n,
        q_groups(s, p, k) is Err,
    ensures
        q_groups(s, p, n) == q_groups(s, p, k),
    decreases n - k,
{
    if k < n {
        lemma_groups_err(s, p, k, (n - 1) as nat);
    }
}

/// No table of the lists refers to a blob file.
pub open spec fn lists_without_blobs(entries: Seq<(String, Vec<TableProperties>)>) -> bool {
    forall|i: int, j: int|
        0 <= i < entries.len() && 0 <= j < entries[i].1@.len() ==> {
            let t = #[trigger] entries[i].1@[j];
            t.blob_file_ids@.len() == 0 && t.blob_references@.len() == 0
        }
}

/// Reads `count` tables.
fn take_tables(c: &mut Cursor, count: u32) -> (r: Result<Vec<TableProperties>>)
    requires
        old(c).valid(),
    ensures
        final(c).valid(),
        final(c).data() == old(c).data(),
        match q_tables(old(c).data(), old(c).pos(), count as nat) {
            Ok((v, p)) => r matches Ok(tables) && list_records(tables@) == v && final(c).pos() == p
                && forall|j: int| 0 <= j < tables@.len() ==> (#[trigger] tables@[j]).blob_file_ids@.len() == 0
                && tables@[j].blob_references@.len() == 0,
            Err(f) => r matches Err(e) && fault_is(e, f),
        },
{
    let ghost s = c.data();
    let ghost start = c.pos();
    let mut tables: Vec<TableProperties> = Vec::new();
    let mut i: u32 = 0;
    proof {
        assert(list_records(tables@) =~= Seq::<TableRecord>::empty());
    }
    while i < count
        invariant
            s == old(c).data(),
            start == old(c).pos(),
            c.valid(),
            c.data() == s,
            i <= count,
            q_tables(s, start, i as nat) matches Ok((v, p)) && c.pos() == p && list_records(tables@) == v,
            forall|j: int| 0 <= j < tables@.len() ==> (#[trigger] tables@[j]).blob_file_ids@.len() == 0
                && tables@[j].blob_references@.len() == 0,
        decreases count - i,
    {
        let ghost before = tables@;
        match take_table(c) {
            Ok(t) => {
                tables.push(t);
                proof {
                    assert(list_records(tables@) =~= list_records(before).push(table_record(t)));
                }
            },
            Err(e) => {
                proof {
                    lemma_tables_err(s, start, (i + 1) as nat, count as nat);
                }
                return Err(e);
            },
        }
        i = i + 1;
    }
    Ok(tables)
}

proof fn lemma_put_keyspace(
    before: Seq<(String, BucketOptions)>,
    after: Seq<(String, BucketOptions)>,
    name: String,
    options: BucketOptions,
)
    requires
        ({
            let names = names_of(before);
            let p = name_position(names, name@);
            if p >= 0 {
                after == before.update(p, (name, options))
            } else {
                after == before.insert(crate::manifest::sorted_position(names, name@), (name, options))
            }
        }),
    ensures
        keyspace_records(after) == put_entry(keyspace_records(before), name@, options_record(options)),
{
    assert(entry_names(keyspace_records(before)) =~= names_of(before));
    let names = names_of(before);
    let p = name_position(names, name@);
    if p >= 0 {
        assert(keyspace_records(after) =~= keyspace_records(before).update(p, (name@, options_record(options))));
    } else {
        let q = crate::manifest::sorted_position(names, name@);
        assert(0 <= q <= before.len()) by {
            names.lemma_filter_len(|n: Seq<char>| crate::bytes::bytes_lt(name_key(n), name_key(name@)));
        }
        assert(keyspace_records(after) =~= keyspace_records(before).insert(q, (name@, options_record(options))));
    }
}

proof fn lemma_put_group(
    before: Seq<(String, Vec<TableProperties>)>,
    after: Seq<(String, Vec<TableProperties>)>,
    name: String,
    tables: Vec<TableProperties>,
)
    requires
        ({
            let names = names_of(before);
            let p = name_position(names, name@);
            if p >= 0 {
                after == before.update(p, (name, tables))
            } else {
                after == before.insert(crate::manifest::sorted_position(names, name@), (name, tables))
            }
        }),
    ensures
        group_records(after) == put_entry(group_records(before), name@, list_records(tables@)),
{
    assert(entry_names(group_records(before)) =~= names_of(before));
    let names = names_of(before);
    let p = name_position(names, name@);
    if p >= 0 {
        assert(group_records(after) =~= group_records(before).update(p, (name@, list_records(tables@))));
    } else {
        let q = crate::manifest::sorted_position(names, name@);
        assert(0 <= q <= before.len()) by {
            names.lemma_filter_len(|n: Seq<char>| crate::bytes::bytes_lt(name_key(n), name_key(name@)));
        }
        assert(group_records(after) =~= group_records(before).insert(q, (name@, list_records(tables@))));
    }
}

/// Reads `count` keyspaces with their options; a name read twice keeps the
/// options read last.
fn take_keyspaces(c: &mut Cursor, count: u32) -> (r: Result<Vec<(String, BucketOptions)>>)
    requires
        old(c).valid(),
    ensures
        final(c).valid(),
        final(c).data() == old(c).data(),
        match q_keyspaces(old(c).data(), old(c).pos(), count as nat) {
            Ok((v, p)) => r matches Ok(entries) && names_sorted(names_of(entries@))
                && keyspace_records(entries@) == put_all(Seq::empty(), v) && final(c).pos() == p,
            Err(f) => r matches Err(e) && fault_is(e, f),
        },
{
    let ghost s = c.data();
    let ghost start = c.pos();
    let mut entries: Vec<(String, BucketOptions)> = Vec::new();
    let mut i: u32 = 0;
    proof {
        assert(keyspace_records(entries@) =~= Seq::<(Seq<char>, OptionsRecord)>::empty());
        assert(names_of(entries@).len() == 0);
    }
    while i < count
        invariant
            s == old(c).data(),
            start == old(c).pos(),
            c.valid(),
            c.data() == s,
            i <= count,
            names_sorted(names_of(entries@)),
            q_keyspaces(s, start, i as nat) matches Ok((v, p)) && c.pos() == p && keyspace_records(entries@)
                == put_all(Seq::empty(), v),
        decreases count - i,
    {
        let name = match take_text(c, "manifest keyspace name is not valid UTF-8") {
            Ok(name) => name,
            Err(e) => {
                proof {
                    lemma_keyspaces_err(s, start, (i + 1) as nat, count as nat);
                }
                return Err(e);
            },
        };
        let options = match take_options(c) {
            Ok(options) => options,
            Err(e) => {
                proof {
                    lemma_keyspaces_err(s, start, (i + 1) as nat, count as nat);
                }
                return Err(e);
            },
        };
        let ghost before = entries@;
        let ghost entry = (name@, options_record(options));
        put_named(&mut entries, name, options);
        proof {
            lemma_put_keyspace(before, entries@, name, options);
            let raw = q_keyspaces(s, start, i as nat)->Ok_0.0;
            assert(raw.push(entry).drop_last() =~= raw);
        }
        i = i + 1;
    }
    Ok(entries)
}

/// Reads `count` table lists, each with its keyspace name; a name read
/// twice keeps the list read last.
fn take_groups(c: &mut Cursor, count: u32) -> (r: Result<Vec<(String, Vec<TableProperties>)>>)
    requires
        old(c).valid(),
    ensures
        final(c).valid(),
        final(c).data() == old(c).data(),
        match q_groups(old(c).data(), old(c).pos(), count as nat) {
            Ok((v, p)) => r matches Ok(entries) && names_sorted(names_of(entries@)) && lists_without_blobs(entries@)
                && group_records(entries@) == put_all(Seq::empty(), v) && final(c).pos() == p,
            Err(f) => r matches Err(e) && fault_is(e, f),
        },
{
    let ghost s = c.data();
    let ghost start = c.pos();
    let mut entries: Vec<(String, Vec<TableProperties>)> = Vec::new();
    let mut i: u32 = 0;
    proof {
        assert(group_records(entries@) =~= Seq::<(Seq<char>, Seq<TableRecord>)>::empty());
        assert(names_of(entries@).len() == 0);
    }
    while i < count
        invariant
            s == old(c).data(),
            start == old(c).pos(),
            c.valid(),
            c.data() == s,
            i <= count,
            names_sorted(names_of(entries@)),
            lists_without_blobs(entries@),
            q_groups(s, start, i as nat) matches Ok((v, p)) && c.pos() == p && group_records(entries@)
                == put_all(Seq::empty(), v),
        decreases count - i,
    {
        let name = match take_text(c, "manifest table keyspace is not valid UTF-8") {
            Ok(name) => name,
            Err(e) => {
                proof {
                    lemma_groups_err(s, start, (i + 1) as nat, count as nat);
                }
                return Err(e);
            },
        };
        let table_count = match take_u32(c) {
            Ok(n) => n,
            Err(e) => {
                proof {
                    lemma_groups_err(s, start, (i + 1) as nat, count as nat);
                }
                return Err(e);
            },
        };
        let tables = match take_tables(c, table_count) {
            Ok(tables) => tables,
            Err(e) => {
                proof {
                    lemma_groups_err(s, start, (i + 1) as nat, count as nat);
                }
                return Err(e);
            },
        };
        let ghost before = entries@;
        let ghost entry = (name@, list_records(tables@));
        let ghost tables_view = tables@;
        put_named(&mut entries, name, tables);
        proof {
            lemma_put_group(before, entries@, name, tables);
            let raw = q_groups(s, start, i as nat)->Ok_0.0;
            assert(raw.push(entry).drop_last() =~= raw);
            assert forall|a: int, b: int|
                0 <= a < entries@.len() && 0 <= b < entries@[a].1@.len() implies {
                    let t = #[trigger] entries@[a].1@[b];
                    t.blob_file_ids@.len() == 0 && t.blob_references@.len() == 0
                } by {
                let names = names_of(before);
                let p = name_position(names, name@);
                if p >= 0 {
                    if a != p {
                        assert(entries@[a] == before[a]);
                    }
                } else {
                    let q = crate::manifest::sorted_position(names, name@);
                    if a < q {
                        assert(entries@[a] == before[a]);
                    } else if a > q {
                        assert(entries@[a] == before[a - 1]);
                    }
                }
            }
        }
        i = i + 1;
    }
    Ok(entries)
}

/// Reads a manifest payload.
pub fn decode_state(payload: &[u8]) -> (r: Result<ManifestState>)
    ensures
        match payload_spec(payload@) {
            Ok(m) => r matches Ok(state) && manifest_record(state) == m && without_blob_references(state),
            Err(f) => r matches Err(e) && fault_is(e, f),
        },
{
    let mut c = Cursor::new(payload);
    let floor = match take_u64(&mut c) {
        Ok(v) => v,
        Err(e) => return Err(e),
    };
    let keyspace_count = match take_u32(&mut c) {
        Ok(v) => v,
        Err(e) => return Err(e),
    };
    let keyspaces = match take_keyspaces(&mut c, keyspace_count) {
        Ok(v) => v,
        Err(e) => return Err(e),
    };
    let group_count = match take_u32(&mut c) {
        Ok(v) => v,
        Err(e) => return Err(e),
    };
    let tables = match take_groups(&mut c, group_count) {
        Ok(v) => v,
        Err(e) => return Err(e),
    };
    if !c.is_finished() {
        return Err(invalid_manifest("trailing payload bytes"));
    }
    let state = ManifestState::from_parts(Sequence::new(floor), keyspaces, tables);
    Ok(state)
}

/// Reads a manifest file: checks the header, the length and the checksum,
/// then reads the payload.
pub fn decode_manifest(bytes: &[u8]) -> (r: Result<ManifestState>)
    ensures
        match manifest_spec(bytes@) {
            Ok(m) => r matches Ok(state) && manifest_record(state) == m && without_blob_references(state),
            Err(f) => r matches Err(e) && fault_is(e, f),
        },
{
    if bytes.len() < MANIFEST_HEADER_LEN {
        return Err(invalid_manifest("short header"));
    }
    let magic = vstd::bytes::u32_from_le_bytes(vstd::slice::slice_subrange(bytes, 0, 4));
    let version = vstd::bytes::u16_from_le_bytes(vstd::slice::slice_subrange(bytes, 4, 6));
    let payload_len = vstd::bytes::u32_from_le_bytes(vstd::slice::slice_subrange(bytes, 6, 10));
    let payload_checksum = vstd::bytes::u32_from_le_bytes(vstd::slice::slice_subrange(bytes, 10, 14));
    if magic != MANIFEST_MAGIC {
        return Err(Error::corruption("manifest magic mismatch"));
    }
    if version != MANIFEST_VERSION {
        return Err(numbered(ErrorKind::UnsupportedFormat, "unsupported manifest version ", version as u64));
    }
    if (bytes.len() as u64) != (MANIFEST_HEADER_LEN as u64) + (payload_len as u64) {
        return Err(Error::corruption("manifest length mismatch"));
    }
    let payload = vstd::slice::slice_subrange(bytes, MANIFEST_HEADER_LEN, bytes.len());
    if checksum(payload) != payload_checksum {
        return Err(Error::corruption("manifest checksum mismatch"));
    }
    decode_state(payload)
}

} // verus!
