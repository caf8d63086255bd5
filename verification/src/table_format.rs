//! The other blocks of a table file: the filter block (a point-key filter
//! and a prefix filter, each optional), the range tombstone block and the
//! index block, which gives each data block its key bounds, its place and
//! its own filters.

use vstd::prelude::*;
use crate::blob_format::{fault_is, key_bytes, Fault};
use crate::error::{Error, ErrorKind, Result};
use crate::filter::{parts_error, parts_valid, PointKeyFilter, PrefixFilter};
use crate::internal_key::{internal_key_less, key_lt, InternalKey, InternalKeyView};
use crate::manifest::{text_bytes, text_from_utf8, utf8_decoded, utf8_encoded};
use crate::manifest_format::{extractor_record, put_table, table_bytes, table_fits, table_record, ExtractorRecord, TableRecord};
use crate::prefix::PrefixExtractor;
use crate::range_tombstone::{sort_tombstones, tombstones_sorted};
use crate::table::{TableBlobReference, TableId, TableLevel, TableProperties, TableRangeTombstone};
use crate::table_block::{
    invalid_table, numbered_fault, put_table_key, reads_as, t_bytes, t_codec, t_key, t_u32, t_u64, t_u8,
    table_codec, table_fault, table_key, table_u32, table_u64, table_u8, Read,
};
use crate::table_block::table_bytes as read_table_bytes;
use crate::text::push_decimal;
use crate::types::{bound_view, Bound, KeyRange, Sequence, SpecBound};
use crate::wire::{le32, le64, len_prefixed, put_bytes, put_u32, put_u64, put_u8, Cursor};

verus! {

/// Fewest bytes a range tombstone takes.
pub const MIN_RANGE_TOMBSTONE_BYTES: usize = 14;

/// Fewest bytes an index entry takes: two keys, the block handle and two
/// filter tags.
pub const MIN_INDEX_ENTRY_BYTES: usize = 52;

// ---------------------------------------------------------------- filters

/// The stored parts of a bloom filter.
pub struct FilterParts {
    pub bit_count: u64,
    pub hash_count: u8,
    pub bytes: Seq<u8>,
}

/// Why stored filter parts cannot make a filter, if they cannot.
pub open spec fn bloom_fault(parts: FilterParts) -> Option<Fault> {
    if !parts_valid(parts.bit_count, parts.hash_count, parts.bytes) {
        Some(
            Fault {
                kind: ErrorKind::InvalidFormat,
                message: parts_error(parts.bit_count, parts.hash_count, parts.bytes),
                exact: true,
            },
        )
    } else {
        None
    }
}

pub open spec fn point_filter_parts(f: PointKeyFilter) -> FilterParts {
    FilterParts { bit_count: f.bloom().spec_bit_count(), hash_count: f.bloom().spec_hash_count(), bytes: f.bloom().spec_bytes() }
}

pub open spec fn prefix_filter_parts(f: PrefixFilter) -> FilterParts {
    FilterParts { bit_count: f.bloom().spec_bit_count(), hash_count: f.bloom().spec_hash_count(), bytes: f.bloom().spec_bytes() }
}

pub open spec fn point_filter_view(f: Option<PointKeyFilter>) -> Option<FilterParts> {
    match f {
        Some(f) => Some(point_filter_parts(f)),
        None => None,
    }
}

pub open spec fn prefix_filter_view(f: Option<PrefixFilter>) -> Option<(ExtractorRecord, FilterParts)> {
    match f {
        Some(f) => Some((extractor_record(f.spec_extractor()), prefix_filter_parts(f))),
        None => None,
    }
}

pub open spec fn parts_bytes(parts: FilterParts) -> Seq<u8> {
    le64(parts.bit_count) + seq![parts.hash_count] + len_prefixed(parts.bytes)
}

pub open spec fn point_filter_bytes(f: Option<FilterParts>) -> Seq<u8> {
    match f {
        None => seq![0u8],
        Some(parts) => seq![1u8] + parts_bytes(parts),
    }
}

/// How a table stores a prefix extractor: tag 0 none, 1 fixed length, 2
/// separator, 3 named.
pub open spec fn table_extractor_bytes(e: ExtractorRecord) -> Seq<u8> {
    match e {
        ExtractorRecord::Disabled => seq![0u8],
        ExtractorRecord::FixedLen(n) => seq![1u8] + le64(n as u64),
        ExtractorRecord::Separator(b) => seq![2u8, b],
        ExtractorRecord::Custom(name) => seq![3u8] + len_prefixed(utf8_encoded(name)),
    }
}

pub open spec fn prefix_filter_bytes(f: Option<(ExtractorRecord, FilterParts)>) -> Seq<u8> {
    match f {
        None => seq![0u8],
        Some((e, parts)) => seq![1u8] + table_extractor_bytes(e) + parts_bytes(parts),
    }
}

pub open spec fn t_parts(s: Seq<u8>, p: int) -> Read<FilterParts> {
    match t_u64(s, p) {
        Err(f) => Err(f),
        Ok((bit_count, p1)) => match t_u8(s, p1) {
            Err(f) => Err(f),
            Ok((hash_count, p2)) => match t_bytes(s, p2) {
                Err(f) => Err(f),
                Ok((bytes, p3)) => Ok((FilterParts { bit_count, hash_count, bytes }, p3)),
            },
        },
    }
}

pub open spec fn t_point_filter(s: Seq<u8>, p: int) -> Read<Option<FilterParts>> {
    match t_u8(s, p) {
        Err(f) => Err(f),
        Ok((tag, p1)) => if tag == 0 {
            Ok((None, p1))
        } else if tag == 1 {
            match t_parts(s, p1) {
                Err(f) => Err(f),
                Ok((parts, p2)) => match bloom_fault(parts) {
                    Some(f) => Err(f),
                    None => Ok((Some(parts), p2)),
                },
            }
        } else {
            Err(numbered_fault(ErrorKind::InvalidFormat, "unknown table point-key filter tag "@, tag as nat))
        },
    }
}

pub open spec fn t_extractor(s: Seq<u8>, p: int) -> Read<ExtractorRecord> {
    match t_u8(s, p) {
        Err(f) => Err(f),
        Ok((tag, p1)) => if tag == 0 {
            Ok((ExtractorRecord::Disabled, p1))
        } else if tag == 1 {
            match t_u64(s, p1) {
                Err(f) => Err(f),
                Ok((n, p2)) => if n <= usize::MAX {
                    Ok((ExtractorRecord::FixedLen(n as usize), p2))
                } else {
                    Err(
                        Fault {
                            kind: ErrorKind::InvalidFormat,
                            message: "prefix extractor length exceeds usize"@,
                            exact: true,
                        },
                    )
                },
            }
        } else if tag == 2 {
            match t_u8(s, p1) {
                Err(f) => Err(f),
                Ok((b, p2)) => Ok((ExtractorRecord::Separator(b), p2)),
            }
        } else if tag == 3 {
            match t_bytes(s, p1) {
                Err(f) => Err(f),
                Ok((bytes, p2)) => match utf8_decoded(bytes) {
                    Some(name) => Ok((ExtractorRecord::Custom(name), p2)),
                    None => Err(
                        Fault {
                            kind: ErrorKind::InvalidFormat,
                            message: "prefix extractor custom name is not utf-8"@,
                            exact: true,
                        },
                    ),
                },
            }
        } else {
            Err(numbered_fault(ErrorKind::InvalidFormat, "unknown table prefix extractor tag "@, tag as nat))
        },
    }
}

pub open spec fn t_prefix_filter(s: Seq<u8>, p: int) -> Read<Option<(ExtractorRecord, FilterParts)>> {
    match t_u8(s, p) {
        Err(f) => Err(f),
        Ok((tag, p1)) => if tag == 0 {
            Ok((None, p1))
        } else if tag == 1 {
            match t_extractor(s, p1) {
                Err(f) => Err(f),
                Ok((e, p2)) => match t_parts(s, p2) {
                    Err(f) => Err(f),
                    Ok((parts, p3)) => match bloom_fault(parts) {
                        Some(f) => Err(f),
                        None => Ok((Some((e, parts)), p3)),
                    },
                },
            }
        } else {
            Err(numbered_fault(ErrorKind::InvalidFormat, "unknown table prefix filter tag "@, tag as nat))
        },
    }
}

/// What a filter block holds, or why it cannot be read.
pub open spec fn filter_block_spec(s: Seq<u8>) -> core::result::Result<
    (Option<FilterParts>, Option<(ExtractorRecord, FilterParts)>),
    Fault,
> {
    match t_point_filter(s, 0) {
        Err(f) => Err(f),
        Ok((point, p1)) => match t_prefix_filter(s, p1) {
            Err(f) => Err(f),
            Ok((prefix, p2)) => if p2 != s.len() {
                Err(table_fault("trailing filter block bytes"@))
            } else {
                Ok((point, prefix))
            },
        },
    }
}

fn numbered_error(kind: ErrorKind, text: &str, value: u64) -> (r: Error)
    requires
        kind != ErrorKind::ReadOnly,
    ensures
        fault_is(r, numbered_fault(kind, text@, value as nat)),
{
    let mut message = String::from_str(text);
    push_decimal(&mut message, value);
    match kind {
        ErrorKind::InvalidFormat => Error::InvalidFormat { message },
        ErrorKind::UnsupportedFormat => Error::UnsupportedFormat { message },
        ErrorKind::Corruption => Error::Corruption { message },
        ErrorKind::InvalidOptions => Error::InvalidOptions { message },
        ErrorKind::ReadOnly => Error::ReadOnly,
    }
}

/// Reads the parts of a bloom filter: bit count, hash count and bytes.
fn read_parts(c: &mut Cursor) -> (r: Result<(u64, u8, Vec<u8>)>)
    requires
        old(c).valid(),
    ensures
        final(c).valid(),
        final(c).data() == old(c).data(),
        match t_parts(old(c).data(), old(c).pos()) {
            Ok((v, p)) => r matches Ok((bit_count, hash_count, bytes)) && bit_count == v.bit_count && hash_count
                == v.hash_count && bytes@ == v.bytes && final(c).pos() == p,
            Err(f) => r matches Err(e) && fault_is(e, f),
        },
{
    let bit_count = match table_u64(c) {
        Ok(v) => v,
        Err(e) => return Err(e),
    };
    let hash_count = match table_u8(c) {
        Ok(v) => v,
        Err(e) => return Err(e),
    };
    let bytes = match read_table_bytes(c) {
        Ok(v) => v,
        Err(e) => return Err(e),
    };
    Ok((bit_count, hash_count, bytes))
}

pub fn read_point_key_filter(c: &mut Cursor) -> (r: Result<Option<PointKeyFilter>>)
    requires
        old(c).valid(),
    ensures
        final(c).valid(),
        final(c).data() == old(c).data(),
        match t_point_filter(old(c).data(), old(c).pos()) {
            Ok((v, p)) => r matches Ok(f) && point_filter_view(f) == v && final(c).pos() == p && (f matches Some(
                g,
            ) ==> g.well_formed()),
            Err(f) => r matches Err(e) && fault_is(e, f),
        },
{
    match table_u8(c) {
        Err(e) => Err(e),
        Ok(0) => Ok(None),
        Ok(1) => {
            let (bit_count, hash_count, bytes) = match read_parts(c) {
                Ok(parts) => parts,
                Err(e) => return Err(e),
            };
            match PointKeyFilter::from_parts(bit_count, hash_count, bytes) {
                Ok(f) => Ok(Some(f)),
                Err(e) => Err(e),
            }
        },
        Ok(tag) => Err(numbered_error(ErrorKind::InvalidFormat, "unknown table point-key filter tag ", tag as u64)),
    }
}

pub fn read_table_extractor(c: &mut Cursor) -> (r: Result<PrefixExtractor>)
    requires
        old(c).valid(),
    ensures
        final(c).valid(),
        final(c).data() == old(c).data(),
        match t_extractor(old(c).data(), old(c).pos()) {
            Ok((v, p)) => r matches Ok(e) && extractor_record(e) == v && final(c).pos() == p,
            Err(f) => r matches Err(e) && fault_is(e, f),
        },
{
    match table_u8(c) {
        Err(e) => Err(e),
        Ok(0) => Ok(PrefixExtractor::Disabled),
        Ok(1) => match table_u64(c) {
            Err(e) => Err(e),
            Ok(n) => if n <= usize::MAX as u64 {
                Ok(PrefixExtractor::FixedLen(n as usize))
            } else {
                Err(Error::invalid_format("prefix extractor length exceeds usize"))
            },
        },
        Ok(2) => match table_u8(c) {
            Err(e) => Err(e),
            Ok(b) => Ok(PrefixExtractor::Separator(b)),
        },
        Ok(3) => match read_table_bytes(c) {
            Err(e) => Err(e),
            Ok(bytes) => match text_from_utf8(bytes) {
                Some(name) => Ok(PrefixExtractor::Custom(name)),
                None => Err(Error::invalid_format("prefix extractor custom name is not utf-8")),
            },
        },
        Ok(tag) => Err(numbered_error(ErrorKind::InvalidFormat, "unknown table prefix extractor tag ", tag as u64)),
    }
}

pub fn read_prefix_filter(c: &mut Cursor) -> (r: Result<Option<PrefixFilter>>)
    requires
        old(c).valid(),
    ensures
        final(c).valid(),
        final(c).data() == old(c).data(),
        match t_prefix_filter(old(c).data(), old(c).pos()) {
            Ok((v, p)) => r matches Ok(f) && prefix_filter_view(f) == v && final(c).pos() == p && (f matches Some(
                g,
            ) ==> g.well_formed()),
            Err(f) => r matches Err(e) && fault_is(e, f),
        },
{
    match table_u8(c) {
        Err(e) => Err(e),
        Ok(0) => Ok(None),
        Ok(1) => {
            let extractor = match read_table_extractor(c) {
                Ok(e) => e,
                Err(e) => return Err(e),
            };
            let (bit_count, hash_count, bytes) = match read_parts(c) {
                Ok(parts) => parts,
                Err(e) => return Err(e),
            };
            match PrefixFilter::from_parts(extractor, bit_count, hash_count, bytes) {
                Ok(f) => Ok(Some(f)),
                Err(e) => Err(e),
            }
        },
        Ok(tag) => Err(numbered_error(ErrorKind::InvalidFormat, "unknown table prefix filter tag ", tag as u64)),
    }
}

/// Reads a filter block: the point-key filter, then the prefix filter.
pub fn decode_filter_block(bytes: &[u8]) -> (r: Result<(Option<PointKeyFilter>, Option<PrefixFilter>)>)
    ensures
        match filter_block_spec(bytes@) {
            Ok((point, prefix)) => r matches Ok((f, g)) && point_filter_view(f) == point && prefix_filter_view(g)
                == prefix,
            Err(f) => r matches Err(e) && fault_is(e, f),
        },
{
    let mut c = Cursor::new(bytes);
    let point = match read_point_key_filter(&mut c) {
        Ok(f) => f,
        Err(e) => return Err(e),
    };
    let prefix = match read_prefix_filter(&mut c) {
        Ok(f) => f,
        Err(e) => return Err(e),
    };
    if !c.is_finished() {
        return Err(invalid_table("trailing filter block bytes"));
    }
    Ok((point, prefix))
}

fn put_parts(out: &mut Vec<u8>, bit_count: u64, hash_count: u8, bytes: &[u8]) -> (r: Result<()>)
    ensures
        r is Ok <==> bytes@.len() <= u32::MAX,
        r is Ok ==> final(out)@ == old(out)@ + parts_bytes(FilterParts { bit_count, hash_count, bytes: bytes@ }),
        r matches Err(e) ==> e.kind() == ErrorKind::InvalidOptions,
{
    if bytes.len() > 0xffff_ffff {
        return Err(Error::invalid_options("table byte field exceeds u32::MAX"));
    }
    let ghost start = out@;
    put_u64(out, bit_count);
    put_u8(out, hash_count);
    let put = put_bytes(out, bytes, "table byte field exceeds u32::MAX");
    proof {
        assert(put is Ok);
        assert(out@ =~= start + parts_bytes(FilterParts { bit_count, hash_count, bytes: bytes@ }));
    }
    Ok(())
}

/// Appends an optional point-key filter.
pub fn put_point_key_filter(out: &mut Vec<u8>, filter: &Option<PointKeyFilter>) -> (r: Result<()>)
    ensures
        r is Ok <==> point_filter_fits(*filter),
        r is Ok ==> final(out)@ == old(out)@ + point_filter_bytes(point_filter_view(*filter)),
        r matches Err(e) ==> e.kind() == ErrorKind::InvalidOptions,
{
    let ghost start = out@;
    match filter {
        None => {
            put_u8(out, 0);
            proof {
                assert(out@ =~= start + point_filter_bytes(point_filter_view(*filter)));
            }
            Ok(())
        },
        Some(f) => {
            let mut field: Vec<u8> = Vec::new();
            if let Err(e) = put_parts(&mut field, f.bit_count(), f.hash_count(), f.bytes()) {
                return Err(e);
            }
            put_u8(out, 1);
            crate::bytes::append_bytes(out, field.as_slice());
            proof {
                assert(out@ =~= start + point_filter_bytes(point_filter_view(*filter)));
            }
            Ok(())
        },
    }
}

/// Appends a prefix extractor the way a table stores it.
pub fn put_table_extractor(out: &mut Vec<u8>, extractor: &PrefixExtractor) -> (r: Result<()>)
    ensures
        r is Ok <==> (extractor_record(*extractor) matches ExtractorRecord::Custom(name) ==> utf8_encoded(name).len()
            <= u32::MAX),
        r is Ok ==> final(out)@ == old(out)@ + table_extractor_bytes(extractor_record(*extractor)),
        r matches Err(e) ==> e.kind() == ErrorKind::InvalidOptions,
{
    let ghost start = out@;
    match extractor {
        PrefixExtractor::Disabled => put_u8(out, 0),
        PrefixExtractor::FixedLen(n) => {
            put_u8(out, 1);
            put_u64(out, *n as u64);
        },
        PrefixExtractor::Separator(b) => {
            put_u8(out, 2);
            put_u8(out, *b);
        },
        PrefixExtractor::Custom(name) => {
            let bytes = text_bytes(name.as_str());
            if bytes.len() > 0xffff_ffff {
                return Err(Error::invalid_options("table byte field exceeds u32::MAX"));
            }
            put_u8(out, 3);
            let put = put_bytes(out, bytes, "table byte field exceeds u32::MAX");
            proof {
                assert(put is Ok);
            }
        },
    }
    proof {
        assert(out@ =~= start + table_extractor_bytes(extractor_record(*extractor)));
    }
    Ok(())
}

/// Appends an optional prefix filter.
pub fn put_prefix_filter(out: &mut Vec<u8>, filter: &Option<PrefixFilter>) -> (r: Result<()>)
    ensures
        r is Ok <==> prefix_filter_fits(*filter),
        r is Ok ==> final(out)@ == old(out)@ + prefix_filter_bytes(prefix_filter_view(*filter)),
        r matches Err(e) ==> e.kind() == ErrorKind::InvalidOptions,
{
    let ghost start = out@;
    match filter {
        None => {
            put_u8(out, 0);
            proof {
                assert(out@ =~= start + prefix_filter_bytes(prefix_filter_view(*filter)));
            }
            Ok(())
        },
        Some(f) => {
            let mut field: Vec<u8> = Vec::new();
            if let Err(e) = put_table_extractor(&mut field, f.extractor()) {
                return Err(e);
            }
            let ghost extractor_part = field@;
            if let Err(e) = put_parts(&mut field, f.bit_count(), f.hash_count(), f.bytes()) {
                return Err(e);
            }
            put_u8(out, 1);
            crate::bytes::append_bytes(out, field.as_slice());
            proof {
                assert(out@ =~= start + prefix_filter_bytes(prefix_filter_view(*filter)));
            }
            Ok(())
        },
    }
}

/// The bytes of a filter block.
/// Whether a point-key filter can be written: its bits fit a `u32` length.
pub open spec fn point_filter_fits(filter: Option<PointKeyFilter>) -> bool {
    filter matches Some(f) ==> f.bloom().spec_bytes().len() <= u32::MAX
}

/// Whether a prefix filter can be written: its bits, and the name of a
/// custom extractor, fit `u32` lengths.
pub open spec fn prefix_filter_fits(filter: Option<PrefixFilter>) -> bool {
    filter matches Some(f) ==> f.bloom().spec_bytes().len() <= u32::MAX && (extractor_record(
        f.spec_extractor(),
    ) matches ExtractorRecord::Custom(name) ==> utf8_encoded(name).len() <= u32::MAX)
}

pub fn encode_filter_block(point: &Option<PointKeyFilter>, prefix: &Option<PrefixFilter>) -> (r: Result<Vec<u8>>)
    ensures
        r is Ok <==> point_filter_fits(*point) && prefix_filter_fits(*prefix),
        r matches Ok(bytes) ==> bytes@ == point_filter_bytes(point_filter_view(*point)) + prefix_filter_bytes(
            prefix_filter_view(*prefix),
        ),
        r matches Err(e) ==> e.kind() == ErrorKind::InvalidOptions,
{
    let mut out: Vec<u8> = Vec::new();
    if let Err(e) = put_point_key_filter(&mut out, point) {
        return Err(e);
    }
    if let Err(e) = put_prefix_filter(&mut out, prefix) {
        return Err(e);
    }
    proof {
        assert(out@ =~= point_filter_bytes(point_filter_view(*point)) + prefix_filter_bytes(
            prefix_filter_view(*prefix),
        ));
    }
    Ok(out)
}

// ---------------------------------------------------------------- range tombstones

/// The mathematical value of a stored range tombstone.
pub struct TombstoneView {
    pub start: SpecBound,
    pub end: SpecBound,
    pub sequence: u64,
    pub batch_index: u32,
}

pub open spec fn tombstone_view(t: TableRangeTombstone) -> TombstoneView {
    TombstoneView {
        start: bound_view(t.range.start),
        end: bound_view(t.range.end),
        sequence: t.sequence.spec_get(),
        batch_index: t.batch_index,
    }
}

pub open spec fn tombstone_views(tombstones: Seq<TableRangeTombstone>) -> Seq<TombstoneView> {
    tombstones.map_values(|t: TableRangeTombstone| tombstone_view(t))
}

pub open spec fn bound_bytes(b: SpecBound) -> Seq<u8> {
    match b {
        SpecBound::Unbounded => seq![0u8],
        SpecBound::Included(key) => seq![1u8] + len_prefixed(key),
        SpecBound::Excluded(key) => seq![2u8] + len_prefixed(key),
    }
}

pub open spec fn tombstone_bytes(t: TombstoneView) -> Seq<u8> {
    bound_bytes(t.start) + bound_bytes(t.end) + le64(t.sequence) + le32(t.batch_index)
}

pub open spec fn tombstones_bytes(tombstones: Seq<TombstoneView>) -> Seq<u8>
    decreases tombstones.len(),
{
    if tombstones.len() == 0 {
        Seq::empty()
    } else {
        tombstones_bytes(tombstones.drop_last()) + tombstone_bytes(tombstones.last())
    }
}

pub open spec fn bound_fits(b: SpecBound) -> bool {
    match b {
        SpecBound::Included(key) => key.len() <= u32::MAX,
        SpecBound::Excluded(key) => key.len() <= u32::MAX,
        SpecBound::Unbounded => true,
    }
}

pub open spec fn t_bound(s: Seq<u8>, p: int) -> Read<SpecBound> {
    match t_u8(s, p) {
        Err(f) => Err(f),
        Ok((tag, p1)) => if tag == 0 {
            Ok((SpecBound::Unbounded, p1))
        } else if tag == 1 {
            match t_bytes(s, p1) {
                Err(f) => Err(f),
                Ok((key, p2)) => Ok((SpecBound::Included(key), p2)),
            }
        } else if tag == 2 {
            match t_bytes(s, p1) {
                Err(f) => Err(f),
                Ok((key, p2)) => Ok((SpecBound::Excluded(key), p2)),
            }
        } else {
            Err(numbered_fault(ErrorKind::InvalidFormat, "unknown table range bound tag "@, tag as nat))
        },
    }
}

pub open spec fn t_tombstone(s: Seq<u8>, p: int) -> Read<TombstoneView> {
    match t_bound(s, p) {
        Err(f) => Err(f),
        Ok((start, p1)) => match t_bound(s, p1) {
            Err(f) => Err(f),
            Ok((end, p2)) => match t_u64(s, p2) {
                Err(f) => Err(f),
                Ok((sequence, p3)) => match t_u32(s, p3) {
                    Err(f) => Err(f),
                    Ok((batch_index, p4)) => Ok((TombstoneView { start, end, sequence, batch_index }, p4)),
                },
            },
        },
    }
}

pub open spec fn t_tombstones(s: Seq<u8>, p: int, n: nat) -> Read<Seq<TombstoneView>>
    decreases n,
{
    if n == 0 {
        Ok((Seq::empty(), p))
    } else {
        match t_tombstones(s, p, (n - 1) as nat) {
            Err(f) => Err(f),
            Ok((ts, p1)) => match t_tombstone(s, p1) {
                Err(f) => Err(f),
                Ok((t, p2)) => Ok((ts.push(t), p2)),
            },
        }
    }
}

/// The tombstones a range tombstone block lists, in file order; or why it
/// cannot be read.
pub open spec fn tombstone_block_spec(s: Seq<u8>) -> core::result::Result<Seq<TombstoneView>, Fault> {
    match t_u32(s, 0) {
        Err(f) => Err(f),
        Ok((count, p1)) => if count > (s.len() - p1) / (MIN_RANGE_TOMBSTONE_BYTES as int) {
            Err(table_fault("range tombstone count exceeds block bytes"@))
        } else {
            match t_tombstones(s, p1, count as nat) {
                Err(f) => Err(f),
                Ok((ts, p2)) => if p2 != s.len() {
                    Err(table_fault("trailing range tombstone block bytes"@))
                } else {
                    Ok(ts)
                },
            }
        },
    }
}

proof fn lemma_tombstones_err(s: Seq<u8>, p: int, k: nat, n: nat)
    requires
        k <= n,
        t_tombstones(s, p, k) is Err,
    ensures
        t_tombstones(s, p, n) == t_tombstones(s, p, k),
    decreases n - k,
{
    if k < n {
        lemma_tombstones_err(s, p, k, (n - 1) as nat);
    }
}

fn read_bound(c: &mut Cursor) -> (r: Result<Bound<Vec<u8>>>)
    requires
        old(c).valid(),
    ensures
        final(c).valid(),
        final(c).data() == old(c).data(),
        match t_bound(old(c).data(), old(c).pos()) {
            Ok((v, p)) => r matches Ok(b) && bound_view(b) == v && final(c).pos() == p,
            Err(f) => r matches Err(e) && fault_is(e, f),
        },
{
    match table_u8(c) {
        Err(e) => Err(e),
        Ok(0) => Ok(Bound::Unbounded),
        Ok(1) => match read_table_bytes(c) {
            Err(e) => Err(e),
            Ok(key) => Ok(Bound::Included(key)),
        },
        Ok(2) => match read_table_bytes(c) {
            Err(e) => Err(e),
            Ok(key) => Ok(Bound::Excluded(key)),
        },
        Ok(tag) => Err(numbered_error(ErrorKind::InvalidFormat, "unknown table range bound tag ", tag as u64)),
    }
}

/// Reads a range tombstone block and sorts its tombstones by range.
pub fn decode_range_tombstone_block(bytes: &[u8]) -> (r: Result<Vec<TableRangeTombstone>>)
    ensures
        match tombstone_block_spec(bytes@) {
            Ok(ts) => r matches Ok(sorted) && tombstones_sorted(sorted@) && exists|raw: Seq<TableRangeTombstone>|
                tombstone_views(raw) == ts && #[trigger] raw.to_multiset() == sorted@.to_multiset(),
            Err(f) => r matches Err(e) && fault_is(e, f),
        },
{
    let ghost s = bytes@;
    let mut c = Cursor::new(bytes);
    let count = match table_u32(&mut c) {
        Ok(v) => v,
        Err(e) => return Err(e),
    };
    if count as usize > c.remaining_len() / MIN_RANGE_TOMBSTONE_BYTES {
        return Err(invalid_table("range tombstone count exceeds block bytes"));
    }
    let mut tombstones: Vec<TableRangeTombstone> = Vec::new();
    let mut i: u32 = 0;
    proof {
        assert(tombstone_views(tombstones@) =~= Seq::<TombstoneView>::empty());
    }
    while i < count
        invariant
            c.valid(),
            c.data() == s,
            s == bytes@,
            t_u32(s, 0) == Ok::<(u32, int), Fault>((count, 4)),
            count <= (s.len() - 4) / (MIN_RANGE_TOMBSTONE_BYTES as int),
            i <= count,
            t_tombstones(s, 4, i as nat) matches Ok((ts, q)) && c.pos() == q && tombstone_views(tombstones@) == ts,
        decreases count - i,
    {
        let start = match read_bound(&mut c) {
            Ok(b) => b,
            Err(e) => {
                proof {
                    lemma_tombstones_err(s, 4, (i + 1) as nat, count as nat);
                }
                return Err(e);
            },
        };
        let end = match read_bound(&mut c) {
            Ok(b) => b,
            Err(e) => {
                proof {
                    lemma_tombstones_err(s, 4, (i + 1) as nat, count as nat);
                }
                return Err(e);
            },
        };
        let sequence = match table_u64(&mut c) {
            Ok(v) => v,
            Err(e) => {
                proof {
                    lemma_tombstones_err(s, 4, (i + 1) as nat, count as nat);
                }
                return Err(e);
            },
        };
        let batch_index = match table_u32(&mut c) {
            Ok(v) => v,
            Err(e) => {
                proof {
                    lemma_tombstones_err(s, 4, (i + 1) as nat, count as nat);
                }
                return Err(e);
            },
        };
        let ghost before = tombstones@;
        let tombstone = TableRangeTombstone {
            range: KeyRange { start, end },
            sequence: Sequence::new(sequence),
            batch_index,
        };
        tombstones.push(tombstone);
        proof {
            assert(tombstone_views(tombstones@) =~= tombstone_views(before).push(tombstone_view(tombstone)));
        }
        i = i + 1;
    }
    if !c.is_finished() {
        return Err(invalid_table("trailing range tombstone block bytes"));
    }
    let ghost raw = tombstones@;
    let sorted = sort_tombstones(tombstones);
    proof {
        assert(tombstone_views(raw) == tombstone_block_spec(s)->Ok_0);
    }
    Ok(sorted)
}

fn put_bound(out: &mut Vec<u8>, bound: &Bound<Vec<u8>>) -> (r: Result<()>)
    ensures
        r is Ok <==> bound_fits(bound_view(*bound)),
        r is Ok ==> final(out)@ == old(out)@ + bound_bytes(bound_view(*bound)),
        r matches Err(e) ==> e.kind() == ErrorKind::InvalidOptions,
{
    let ghost start = out@;
    match bound {
        Bound::Unbounded => put_u8(out, 0),
        Bound::Included(key) => {
            if key.len() > 0xffff_ffff {
                return Err(Error::invalid_options("table byte field exceeds u32::MAX"));
            }
            put_u8(out, 1);
            let put = put_bytes(out, key.as_slice(), "table byte field exceeds u32::MAX");
            proof {
                assert(put is Ok);
            }
        },
        Bound::Excluded(key) => {
            if key.len() > 0xffff_ffff {
                return Err(Error::invalid_options("table byte field exceeds u32::MAX"));
            }
            put_u8(out, 2);
            let put = put_bytes(out, key.as_slice(), "table byte field exceeds u32::MAX");
            proof {
                assert(put is Ok);
            }
        },
    }
    proof {
        assert(out@ =~= start + bound_bytes(bound_view(*bound)));
    }
    Ok(())
}

/// The bytes of a range tombstone block: the count, then each tombstone's
/// bounds, sequence and batch index.
pub fn encode_range_tombstone_block(tombstones: &[TableRangeTombstone]) -> (r: Result<Vec<u8>>)
    ensures
        r is Ok <==> tombstones@.len() <= u32::MAX && forall|i: int|
            0 <= i < tombstones@.len() ==> bound_fits(#[trigger] tombstone_view(tombstones@[i]).start) && bound_fits(
                tombstone_view(tombstones@[i]).end,
            ),
        r matches Ok(bytes) ==> bytes@ == le32(tombstones@.len() as u32) + tombstones_bytes(tombstone_views(tombstones@)),
        r matches Err(e) ==> e.kind() == ErrorKind::InvalidOptions,
{
    let ghost views = tombstone_views(tombstones@);
    if tombstones.len() > 0xffff_ffff {
        return Err(Error::invalid_options("range tombstone block record count exceeds u32::MAX"));
    }
    let mut out: Vec<u8> = Vec::new();
    put_u32(&mut out, tombstones.len() as u32);
    let ghost head = out@;
    let mut i: usize = 0;
    while i < tombstones.len()
        invariant
            views == tombstone_views(tombstones@),
            tombstones@.len() <= u32::MAX,
            head == le32(tombstones@.len() as u32),
            i <= tombstones@.len(),
            out@ == head + tombstones_bytes(views.take(i as int)),
            forall|j: int|
                0 <= j < i ==> bound_fits(#[trigger] tombstone_view(tombstones@[j]).start) && bound_fits(
                    tombstone_view(tombstones@[j]).end,
                ),
        decreases tombstones@.len() - i,
    {
        let ghost before = out@;
        let t = &tombstones[i];
        if let Err(e) = put_bound(&mut out, &t.range.start) {
            return Err(e);
        }
        if let Err(e) = put_bound(&mut out, &t.range.end) {
            return Err(e);
        }
        put_u64(&mut out, t.sequence.get());
        put_u32(&mut out, t.batch_index);
        proof {
            assert(views[i as int] == tombstone_view(tombstones@[i as int]));
            assert(views.take(i + 1).drop_last() =~= views.take(i as int));
            assert(views.take(i + 1).last() == views[i as int]);
            assert(out@ =~= head + tombstones_bytes(views.take(i + 1)));
        }
        i = i + 1;
    }
    proof {
        assert(views.take(i as int) =~= views);
    }
    Ok(out)
}

// ---------------------------------------------------------------- index block

/// Where a data block lies in the data section.
#[derive(Debug, Clone, Copy, PartialEq, Eq, Structural)]
pub struct BlockHandle {
    pub offset: u64,
    pub len: u64,
}

/// The index entry of a data block: its first and last keys, its place,
/// and the filters over its keys and prefixes.
#[derive(Debug, Clone, PartialEq, Eq)]
pub struct DataBlockIndexEntry {
    pub smallest_internal_key: InternalKey,
    pub largest_internal_key: InternalKey,
    pub block: BlockHandle,
    pub point_key_filter: Option<PointKeyFilter>,
    pub prefix_filter: Option<PrefixFilter>,
}

pub struct IndexEntryView {
    pub smallest: InternalKeyView,
    pub largest: InternalKeyView,
    pub block: BlockHandle,
    pub point: Option<FilterParts>,
    pub prefix: Option<(ExtractorRecord, FilterParts)>,
}

pub open spec fn index_entry_view(e: DataBlockIndexEntry) -> IndexEntryView {
    IndexEntryView {
        smallest: e.smallest_internal_key@,
        largest: e.largest_internal_key@,
        block: e.block,
        point: point_filter_view(e.point_key_filter),
        prefix: prefix_filter_view(e.prefix_filter),
    }
}

pub open spec fn index_entry_views(entries: Seq<DataBlockIndexEntry>) -> Seq<IndexEntryView> {
    entries.map_values(|e: DataBlockIndexEntry| index_entry_view(e))
}

pub open spec fn index_entry_bytes(e: IndexEntryView) -> Seq<u8> {
    key_bytes(e.smallest) + key_bytes(e.largest) + le64(e.block.offset) + le64(e.block.len) + point_filter_bytes(
        e.point,
    ) + prefix_filter_bytes(e.prefix)
}

pub open spec fn index_entries_bytes(entries: Seq<IndexEntryView>) -> Seq<u8>
    decreases entries.len(),
{
    if entries.len() == 0 {
        Seq::empty()
    } else {
        index_entries_bytes(entries.drop_last()) + index_entry_bytes(entries.last())
    }
}

/// Every byte field of the entry fits its `u32` length.
pub open spec fn index_entry_fits(e: IndexEntryView) -> bool {
    &&& e.smallest.user_key.len() <= u32::MAX
    &&& e.largest.user_key.len() <= u32::MAX
    &&& (e.point matches Some(parts) ==> parts.bytes.len() <= u32::MAX)
    &&& (e.prefix matches Some((extractor, parts)) ==> parts.bytes.len() <= u32::MAX && (extractor matches ExtractorRecord::Custom(
        name,
    ) ==> utf8_encoded(name).len() <= u32::MAX))
}

pub open spec fn t_index_entry(s: Seq<u8>, p: int) -> Read<IndexEntryView> {
    match t_key(s, p) {
        Err(f) => Err(f),
        Ok((smallest, p1)) => match t_key(s, p1) {
            Err(f) => Err(f),
            Ok((largest, p2)) => match t_u64(s, p2) {
                Err(f) => Err(f),
                Ok((offset, p3)) => match t_u64(s, p3) {
                    Err(f) => Err(f),
                    Ok((len, p4)) => match t_point_filter(s, p4) {
                        Err(f) => Err(f),
                        Ok((point, p5)) => match t_prefix_filter(s, p5) {
                            Err(f) => Err(f),
                            Ok((prefix, p6)) => Ok(
                                (
                                    IndexEntryView {
                                        smallest,
                                        largest,
                                        block: BlockHandle { offset, len },
                                        point,
                                        prefix,
                                    },
                                    p6,
                                ),
                            ),
                        },
                    },
                },
            },
        },
    }
}

pub open spec fn t_index_entries(s: Seq<u8>, p: int, n: nat) -> Read<Seq<IndexEntryView>>
    decreases n,
{
    if n == 0 {
        Ok((Seq::empty(), p))
    } else {
        match t_index_entries(s, p, (n - 1) as nat) {
            Err(f) => Err(f),
            Ok((es, p1)) => match t_index_entry(s, p1) {
                Err(f) => Err(f),
                Ok((e, p2)) => Ok((es.push(e), p2)),
            },
        }
    }
}

/// The entries an index block lists, or why it cannot be read.
pub open spec fn index_block_spec(s: Seq<u8>) -> core::result::Result<Seq<IndexEntryView>, Fault> {
    match t_u32(s, 0) {
        Err(f) => Err(f),
        Ok((count, p1)) => if count > (s.len() - p1) / (MIN_INDEX_ENTRY_BYTES as int) {
            Err(table_fault("index entry count exceeds block bytes"@))
        } else {
            match t_index_entries(s, p1, count as nat) {
                Err(f) => Err(f),
                Ok((es, p2)) => if p2 != s.len() {
                    Err(table_fault("trailing index block bytes"@))
                } else {
                    Ok(es)
                },
            }
        },
    }
}

proof fn lemma_index_entries_err(s: Seq<u8>, p: int, k: nat, n: nat)
    requires
        k <= n,
        t_index_entries(s, p, k) is Err,
    ensures
        t_index_entries(s, p, n) == t_index_entries(s, p, k),
    decreases n - k,
{
    if k < n {
        lemma_index_entries_err(s, p, k, (n - 1) as nat);
    }
}

fn read_index_entry(c: &mut Cursor) -> (r: Result<DataBlockIndexEntry>)
    requires
        old(c).valid(),
    ensures
        final(c).valid(),
        final(c).data() == old(c).data(),
        match t_index_entry(old(c).data(), old(c).pos()) {
            Ok((v, p)) => r matches Ok(e) && index_entry_view(e) == v && final(c).pos() == p,
            Err(f) => r matches Err(e) && fault_is(e, f),
        },
{
    let smallest_internal_key = match table_key(c) {
        Ok(v) => v,
        Err(e) => return Err(e),
    };
    let largest_internal_key = match table_key(c) {
        Ok(v) => v,
        Err(e) => return Err(e),
    };
    let offset = match table_u64(c) {
        Ok(v) => v,
        Err(e) => return Err(e),
    };
    let len = match table_u64(c) {
        Ok(v) => v,
        Err(e) => return Err(e),
    };
    let point_key_filter = match read_point_key_filter(c) {
        Ok(v) => v,
        Err(e) => return Err(e),
    };
    let prefix_filter = match read_prefix_filter(c) {
        Ok(v) => v,
        Err(e) => return Err(e),
    };
    Ok(
        DataBlockIndexEntry {
            smallest_internal_key,
            largest_internal_key,
            block: BlockHandle { offset, len },
            point_key_filter,
            prefix_filter,
        },
    )
}

/// Reads an index block. The entry count is checked against the bytes left
/// before any entry is read.
pub fn decode_index_block(bytes: &[u8]) -> (r: Result<Vec<DataBlockIndexEntry>>)
    ensures
        match index_block_spec(bytes@) {
            Ok(es) => r matches Ok(entries) && index_entry_views(entries@) == es,
            Err(f) => r matches Err(e) && fault_is(e, f),
        },
{
    let ghost s = bytes@;
    let mut c = Cursor::new(bytes);
    let count = match table_u32(&mut c) {
        Ok(v) => v,
        Err(e) => return Err(e),
    };
    if count as usize > c.remaining_len() / MIN_INDEX_ENTRY_BYTES {
        return Err(invalid_table("index entry count exceeds block bytes"));
    }
    let mut entries: Vec<DataBlockIndexEntry> = Vec::new();
    let mut i: u32 = 0;
    proof {
        assert(index_entry_views(entries@) =~= Seq::<IndexEntryView>::empty());
    }
    while i < count
        invariant
            c.valid(),
            c.data() == s,
            s == bytes@,
            t_u32(s, 0) == Ok::<(u32, int), Fault>((count, 4)),
            count <= (s.len() - 4) / (MIN_INDEX_ENTRY_BYTES as int),
            i <= count,
            t_index_entries(s, 4, i as nat) matches Ok((es, q)) && c.pos() == q && index_entry_views(entries@) == es,
        decreases count - i,
    {
        let entry = match read_index_entry(&mut c) {
            Ok(e) => e,
            Err(e) => {
                proof {
                    lemma_index_entries_err(s, 4, (i + 1) as nat, count as nat);
                }
                return Err(e);
            },
        };
        let ghost before = entries@;
        entries.push(entry);
        proof {
            assert(index_entry_views(entries@) =~= index_entry_views(before).push(index_entry_view(entry)));
        }
        i = i + 1;
    }
    if !c.is_finished() {
        return Err(invalid_table("trailing index block bytes"));
    }
    Ok(entries)
}

fn put_index_entry(out: &mut Vec<u8>, e: &DataBlockIndexEntry) -> (r: Result<()>)
    ensures
        r is Ok <==> index_entry_fits(index_entry_view(*e)),
        r is Ok ==> final(out)@ == old(out)@ + index_entry_bytes(index_entry_view(*e)),
        r matches Err(e) ==> e.kind() == ErrorKind::InvalidOptions,
{
    let ghost start = out@;
    if let Err(err) = put_table_key(out, &e.smallest_internal_key) {
        return Err(err);
    }
    if let Err(err) = put_table_key(out, &e.largest_internal_key) {
        return Err(err);
    }
    put_u64(out, e.block.offset);
    put_u64(out, e.block.len);
    if let Err(err) = put_point_key_filter(out, &e.point_key_filter) {
        return Err(err);
    }
    if let Err(err) = put_prefix_filter(out, &e.prefix_filter) {
        return Err(err);
    }
    proof {
        assert(out@ =~= start + index_entry_bytes(index_entry_view(*e)));
    }
    Ok(())
}

/// The bytes of an index block: the count, then each entry's keys, block
/// handle and filters.
pub fn encode_index_block(entries: &[DataBlockIndexEntry]) -> (r: Result<Vec<u8>>)
    ensures
        r is Ok <==> entries@.len() <= u32::MAX && forall|i: int|
            0 <= i < entries@.len() ==> index_entry_fits(#[trigger] index_entry_views(entries@)[i]),
        r matches Ok(bytes) ==> bytes@ == le32(entries@.len() as u32) + index_entries_bytes(
            index_entry_views(entries@),
        ),
        r matches Err(e) ==> e.kind() == ErrorKind::InvalidOptions,
{
    let ghost views = index_entry_views(entries@);
    if entries.len() > 0xffff_ffff {
        return Err(Error::invalid_options("data block index entry count exceeds u32::MAX"));
    }
    let mut out: Vec<u8> = Vec::new();
    put_u32(&mut out, entries.len() as u32);
    let ghost head = out@;
    let mut i: usize = 0;
    while i < entries.len()
        invariant
            views == index_entry_views(entries@),
            head == le32(entries@.len() as u32),
            i <= entries@.len(),
            out@ == head + index_entries_bytes(views.take(i as int)),
            forall|j: int| 0 <= j < i ==> index_entry_fits(#[trigger] views[j]),
        decreases entries@.len() - i,
    {
        proof {
            assert(views[i as int] == index_entry_view(entries@[i as int]));
        }
        if let Err(err) = put_index_entry(&mut out, &entries[i]) {
            return Err(err);
        }
        proof {
            assert(views.take(i + 1).drop_last() =~= views.take(i as int));
            assert(views.take(i + 1).last() == views[i as int]);
            assert(out@ =~= head + index_entries_bytes(views.take(i + 1)));
        }
        i = i + 1;
    }
    proof {
        assert(views.take(i as int) =~= views);
    }
    Ok(out)
}

// ---------------------------------------------------------------- properties block

/// The mathematical value of a table's reference into a blob file.
pub struct ReferenceView {
    pub file_id: u64,
    pub referenced_bytes: u64,
    pub referenced_record_count: u64,
    pub smallest: InternalKeyView,
    pub largest: InternalKeyView,
}

/// What the properties block of a table records.
pub struct PropertiesView {
    pub table: TableRecord,
    pub blob_file_ids: Seq<u64>,
    pub blob_references: Seq<ReferenceView>,
}

pub open spec fn reference_view(r: TableBlobReference) -> ReferenceView {
    ReferenceView {
        file_id: r.file_id,
        referenced_bytes: r.referenced_bytes,
        referenced_record_count: r.referenced_record_count,
        smallest: r.smallest_internal_key@,
        largest: r.largest_internal_key@,
    }
}

pub open spec fn reference_views(refs: Seq<TableBlobReference>) -> Seq<ReferenceView> {
    refs.map_values(|r: TableBlobReference| reference_view(r))
}

pub open spec fn properties_view(p: TableProperties) -> PropertiesView {
    PropertiesView {
        table: table_record(p),
        blob_file_ids: p.blob_file_ids@,
        blob_references: reference_views(p.blob_references@),
    }
}

pub open spec fn u64s_bytes(values: Seq<u64>) -> Seq<u8>
    decreases values.len(),
{
    if values.len() == 0 {
        Seq::empty()
    } else {
        u64s_bytes(values.drop_last()) + le64(values.last())
    }
}

pub open spec fn reference_bytes(r: ReferenceView) -> Seq<u8> {
    le64(r.file_id) + le64(r.referenced_bytes) + le64(r.referenced_record_count) + key_bytes(r.smallest)
        + key_bytes(r.largest)
}

pub open spec fn references_bytes(refs: Seq<ReferenceView>) -> Seq<u8>
    decreases refs.len(),
{
    if refs.len() == 0 {
        Seq::empty()
    } else {
        references_bytes(refs.drop_last()) + reference_bytes(refs.last())
    }
}

/// The bytes of a properties block.
pub open spec fn properties_bytes(p: PropertiesView) -> Seq<u8> {
    table_bytes(p.table) + le32(p.blob_file_ids.len() as u32) + u64s_bytes(p.blob_file_ids) + le32(
        p.blob_references.len() as u32,
    ) + references_bytes(p.blob_references)
}

/// Every count and byte field fits its `u32` field.
pub open spec fn properties_fit(p: PropertiesView) -> bool {
    &&& table_fits(p.table)
    &&& p.blob_file_ids.len() <= u32::MAX
    &&& p.blob_references.len() <= u32::MAX
    &&& forall|i: int|
        0 <= i < p.blob_references.len() ==> (#[trigger] p.blob_references[i]).smallest.user_key.len() <= u32::MAX
            && p.blob_references[i].largest.user_key.len() <= u32::MAX
}

/// `n` blob file ids, each larger than the one before.
pub open spec fn t_file_ids(s: Seq<u8>, p: int, n: nat) -> Read<Seq<u64>>
    decreases n,
{
    if n == 0 {
        Ok((Seq::empty(), p))
    } else {
        match t_file_ids(s, p, (n - 1) as nat) {
            Err(f) => Err(f),
            Ok((ids, p1)) => match t_u64(s, p1) {
                Err(f) => Err(f),
                Ok((id, p2)) => if ids.len() > 0 && ids.last() >= id {
                    Err(table_fault("properties blob file ids are not sorted"@))
                } else {
                    Ok((ids.push(id), p2))
                },
            },
        }
    }
}

/// `n` blob references, in increasing file id, each with ordered key
/// bounds.
pub open spec fn t_references(s: Seq<u8>, p: int, n: nat) -> Read<Seq<ReferenceView>>
    decreases n,
{
    if n == 0 {
        Ok((Seq::empty(), p))
    } else {
        match t_references(s, p, (n - 1) as nat) {
            Err(f) => Err(f),
            Ok((refs, p1)) => match t_u64(s, p1) {
                Err(f) => Err(f),
                Ok((file_id, p2)) => if refs.len() > 0 && refs.last().file_id >= file_id {
                    Err(table_fault("properties blob references are not sorted"@))
                } else {
                    match t_u64(s, p2) {
                        Err(f) => Err(f),
                        Ok((referenced_bytes, p3)) => match t_u64(s, p3) {
                            Err(f) => Err(f),
                            Ok((referenced_record_count, p4)) => match t_key(s, p4) {
                                Err(f) => Err(f),
                                Ok((smallest, p5)) => match t_key(s, p5) {
                                    Err(f) => Err(f),
                                    Ok((largest, p6)) => if key_lt(largest, smallest) {
                                        Err(table_fault("properties blob reference key bounds are invalid"@))
                                    } else {
                                        Ok(
                                            (
                                                refs.push(
                                                    ReferenceView {
                                                        file_id,
                                                        referenced_bytes,
                                                        referenced_record_count,
                                                        smallest,
                                                        largest,
                                                    },
                                                ),
                                                p6,
                                            ),
                                        )
                                    },
                                },
                            },
                        },
                    }
                },
            },
        }
    }
}

/// The table fields of a properties block, as the manifest also records
/// them.
pub open spec fn t_table_fields(s: Seq<u8>, p: int) -> Read<TableRecord> {
    match t_u64(s, p) {
        Err(f) => Err(f),
        Ok((id, p1)) => match t_u32(s, p1) {
            Err(f) => Err(f),
            Ok((level, p2)) => match t_bytes(s, p2) {
                Err(f) => Err(f),
                Ok((smallest_user_key, p3)) => match t_bytes(s, p3) {
                    Err(f) => Err(f),
                    Ok((largest_user_key, p4)) => match t_u64(s, p4) {
                        Err(f) => Err(f),
                        Ok((smallest_sequence, p5)) => match t_u64(s, p5) {
                            Err(f) => Err(f),
                            Ok((largest_sequence, p6)) => match t_codec(s, p6) {
                                Err(f) => Err(f),
                                Ok((codec, p7)) => Ok(
                                    (
                                        TableRecord {
                                            id,
                                            level,
                                            smallest_user_key,
                                            largest_user_key,
                                            smallest_sequence,
                                            largest_sequence,
                                            codec,
                                        },
                                        p7,
                                    ),
                                ),
                            },
                        },
                    },
                },
            },
        },
    }
}

/// What a properties block holds, or why it cannot be read.
pub open spec fn properties_block_spec(s: Seq<u8>) -> core::result::Result<PropertiesView, Fault> {
    match t_table_fields(s, 0) {
        Err(f) => Err(f),
        Ok((table, p1)) => match t_u32(s, p1) {
            Err(f) => Err(f),
            Ok((id_count, p2)) => if id_count > (s.len() - p2) / 8 {
                Err(table_fault("properties blob file id count exceeds block bytes"@))
            } else {
                match t_file_ids(s, p2, id_count as nat) {
                    Err(f) => Err(f),
                    Ok((ids, p3)) => match t_u32(s, p3) {
                        Err(f) => Err(f),
                        Ok((ref_count, p4)) => if ref_count > (s.len() - p4) / 58 {
                            Err(table_fault("properties blob reference count exceeds block bytes"@))
                        } else {
                            match t_references(s, p4, ref_count as nat) {
                                Err(f) => Err(f),
                                Ok((refs, p5)) => if p5 != s.len() {
                                    Err(table_fault("trailing properties block bytes"@))
                                } else {
                                    Ok(PropertiesView { table, blob_file_ids: ids, blob_references: refs })
                                },
                            }
                        },
                    },
                }
            },
        },
    }
}

proof fn lemma_file_ids_err(s: Seq<u8>, p: int, k: nat, n: nat)
    requires
        k <= n,
        t_file_ids(s, p, k) is Err,
    ensures
        t_file_ids(s, p, n) == t_file_ids(s, p, k),
    decreases n - k,
{
    if k < n {
        lemma_file_ids_err(s, p, k, (n - 1) as nat);
    }
}

proof fn lemma_references_err(s: Seq<u8>, p: int, k: nat, n: nat)
    requires
        k <= n,
        t_references(s, p, k) is Err,
    ensures
        t_references(s, p, n) == t_references(s, p, k),
    decreases n - k,
{
    if k < n {
        lemma_references_err(s, p, k, (n - 1) as nat);
    }
}

fn read_file_ids(c: &mut Cursor, count: u32) -> (r: Result<Vec<u64>>)
    requires
        old(c).valid(),
    ensures
        final(c).valid(),
        final(c).data() == old(c).data(),
        match t_file_ids(old(c).data(), old(c).pos(), count as nat) {
            Ok((v, p)) => r matches Ok(ids) && ids@ == v && final(c).pos() == p,
            Err(f) => r matches Err(e) && fault_is(e, f),
        },
{
    let ghost s = c.data();
    let ghost start = c.pos();
    let mut ids: Vec<u64> = Vec::new();
    let mut i: u32 = 0;
    while i < count
        invariant
            s == old(c).data(),
            start == old(c).pos(),
            c.valid(),
            c.data() == s,
            i <= count,
            t_file_ids(s, start, i as nat) matches Ok((v, q)) && c.pos() == q && ids@ == v,
        decreases count - i,
    {
        let id = match table_u64(&mut *c) {
            Ok(v) => v,
            Err(e) => {
                proof {
                    lemma_file_ids_err(s, start, (i + 1) as nat, count as nat);
                }
                return Err(e);
            },
        };
        if ids.len() > 0 && ids[ids.len() - 1] >= id {
            proof {
                lemma_file_ids_err(s, start, (i + 1) as nat, count as nat);
            }
            return Err(invalid_table("properties blob file ids are not sorted"));
        }
        ids.push(id);
        i = i + 1;
    }
    Ok(ids)
}

fn read_references(c: &mut Cursor, count: u32) -> (r: Result<Vec<TableBlobReference>>)
    requires
        old(c).valid(),
    ensures
        final(c).valid(),
        final(c).data() == old(c).data(),
        match t_references(old(c).data(), old(c).pos(), count as nat) {
            Ok((v, p)) => r matches Ok(refs) && reference_views(refs@) == v && final(c).pos() == p,
            Err(f) => r matches Err(e) && fault_is(e, f),
        },
{
    let ghost s = c.data();
    let ghost start = c.pos();
    let mut refs: Vec<TableBlobReference> = Vec::new();
    let mut i: u32 = 0;
    proof {
        assert(reference_views(refs@) =~= Seq::<ReferenceView>::empty());
    }
    while i < count
        invariant
            s == old(c).data(),
            start == old(c).pos(),
            c.valid(),
            c.data() == s,
            i <= count,
            t_references(s, start, i as nat) matches Ok((v, q)) && c.pos() == q && reference_views(refs@) == v,
        decreases count - i,
    {
        let file_id = match table_u64(&mut *c) {
            Ok(v) => v,
            Err(e) => {
                proof {
                    lemma_references_err(s, start, (i + 1) as nat, count as nat);
                }
                return Err(e);
            },
        };
        if refs.len() > 0 && refs[refs.len() - 1].file_id >= file_id {
            proof {
                assert(reference_views(refs@).last() == reference_view(refs@.last()));
                lemma_references_err(s, start, (i + 1) as nat, count as nat);
            }
            return Err(invalid_table("properties blob references are not sorted"));
        }
        let referenced_bytes = match table_u64(&mut *c) {
            Ok(v) => v,
            Err(e) => {
                proof {
                    lemma_references_err(s, start, (i + 1) as nat, count as nat);
                }
                return Err(e);
            },
        };
        let referenced_record_count = match table_u64(&mut *c) {
            Ok(v) => v,
            Err(e) => {
                proof {
                    lemma_references_err(s, start, (i + 1) as nat, count as nat);
                }
                return Err(e);
            },
        };
        let smallest_internal_key = match table_key(&mut *c) {
            Ok(v) => v,
            Err(e) => {
                proof {
                    lemma_references_err(s, start, (i + 1) as nat, count as nat);
                }
                return Err(e);
            },
        };
        let largest_internal_key = match table_key(&mut *c) {
            Ok(v) => v,
            Err(e) => {
                proof {
                    lemma_references_err(s, start, (i + 1) as nat, count as nat);
                }
                return Err(e);
            },
        };
        if internal_key_less(&largest_internal_key, &smallest_internal_key) {
            proof {
                lemma_references_err(s, start, (i + 1) as nat, count as nat);
            }
            return Err(invalid_table("properties blob reference key bounds are invalid"));
        }
        proof {
            if refs@.len() > 0 {
                assert(reference_views(refs@).last() == reference_view(refs@.last()));
            }
        }
        let ghost before = refs@;
        let reference = TableBlobReference {
            file_id,
            referenced_bytes,
            referenced_record_count,
            smallest_internal_key,
            largest_internal_key,
        };
        refs.push(reference);
        proof {
            assert(reference_views(refs@) =~= reference_views(before).push(reference_view(reference)));
        }
        i = i + 1;
    }
    Ok(refs)
}

/// Reads a properties block. Blob file ids must grow strictly, and so must
/// the file ids of the blob references, whose key bounds must be ordered.
pub fn decode_properties_block(bytes: &[u8]) -> (r: Result<TableProperties>)
    ensures
        match properties_block_spec(bytes@) {
            Ok(v) => r matches Ok(p) && properties_view(p) == v,
            Err(f) => r matches Err(e) && fault_is(e, f),
        },
{
    let mut c = Cursor::new(bytes);
    let id = match table_u64(&mut c) {
        Ok(v) => v,
        Err(e) => return Err(e),
    };
    let level = match table_u32(&mut c) {
        Ok(v) => v,
        Err(e) => return Err(e),
    };
    let smallest_user_key = match read_table_bytes(&mut c) {
        Ok(v) => v,
        Err(e) => return Err(e),
    };
    let largest_user_key = match read_table_bytes(&mut c) {
        Ok(v) => v,
        Err(e) => return Err(e),
    };
    let smallest_sequence = match table_u64(&mut c) {
        Ok(v) => v,
        Err(e) => return Err(e),
    };
    let largest_sequence = match table_u64(&mut c) {
        Ok(v) => v,
        Err(e) => return Err(e),
    };
    let codec = match table_codec(&mut c) {
        Ok(v) => v,
        Err(e) => return Err(e),
    };
    let id_count = match table_u32(&mut c) {
        Ok(v) => v,
        Err(e) => return Err(e),
    };
    if id_count as usize > c.remaining_len() / 8 {
        return Err(invalid_table("properties blob file id count exceeds block bytes"));
    }
    let blob_file_ids = match read_file_ids(&mut c, id_count) {
        Ok(v) => v,
        Err(e) => return Err(e),
    };
    let ref_count = match table_u32(&mut c) {
        Ok(v) => v,
        Err(e) => return Err(e),
    };
    if ref_count as usize > c.remaining_len() / 58 {
        return Err(invalid_table("properties blob reference count exceeds block bytes"));
    }
    let blob_references = match read_references(&mut c, ref_count) {
        Ok(v) => v,
        Err(e) => return Err(e),
    };
    if !c.is_finished() {
        return Err(invalid_table("trailing properties block bytes"));
    }
    Ok(
        TableProperties {
            id: TableId(id),
            level: TableLevel(level),
            smallest_user_key,
            largest_user_key,
            smallest_sequence: Sequence::new(smallest_sequence),
            largest_sequence: Sequence::new(largest_sequence),
            codec,
            blob_file_ids,
            blob_references,
        },
    )
}

/// The bytes of a properties block.
pub fn encode_properties_block(properties: &TableProperties) -> (r: Result<Vec<u8>>)
    ensures
        r is Ok <==> properties_fit(properties_view(*properties)),
        r matches Ok(bytes) ==> bytes@ == properties_bytes(properties_view(*properties)),
        r matches Err(e) ==> e.kind() == ErrorKind::InvalidOptions,
{
    let ghost v = properties_view(*properties);
    let mut out: Vec<u8> = Vec::new();
    if let Err(e) = put_table(&mut out, properties) {
        return Err(e);
    }
    let ids = properties.blob_file_ids();
    if ids.len() > 0xffff_ffff {
        return Err(Error::invalid_options("properties blob file id count exceeds u32::MAX"));
    }
    put_u32(&mut out, ids.len() as u32);
    let ghost head = out@;
    let mut i: usize = 0;
    while i < ids.len()
        invariant
            i <= ids@.len(),
            ids@ == properties.blob_file_ids@,
            out@ == head + u64s_bytes(ids@.take(i as int)),
        decreases ids@.len() - i,
    {
        proof {
            assert(ids@.take(i + 1).drop_last() =~= ids@.take(i as int));
        }
        put_u64(&mut out, ids[i]);
        i = i + 1;
    }
    proof {
        assert(ids@.take(i as int) =~= ids@);
    }
    let refs = properties.blob_references();
    if refs.len() > 0xffff_ffff {
        return Err(Error::invalid_options("properties blob reference count exceeds u32::MAX"));
    }
    put_u32(&mut out, refs.len() as u32);
    let ghost middle = out@;
    let ghost rv = reference_views(refs@);
    let mut k: usize = 0;
    while k < refs.len()
        invariant
            k <= refs@.len(),
            v == properties_view(*properties),
            refs@ == properties.blob_references@,
            table_fits(v.table),
            v.blob_file_ids.len() <= u32::MAX,
            refs@.len() <= u32::MAX,
            rv == reference_views(refs@),
            out@ == middle + references_bytes(rv.take(k as int)),
            forall|j: int|
                0 <= j < k ==> (#[trigger] rv[j]).smallest.user_key.len() <= u32::MAX && rv[j].largest.user_key.len()
                    <= u32::MAX,
        decreases refs@.len() - k,
    {
        let reference = &refs[k];
        let ghost before = out@;
        put_u64(&mut out, reference.file_id);
        put_u64(&mut out, reference.referenced_bytes);
        put_u64(&mut out, reference.referenced_record_count);
        if let Err(e) = put_table_key(&mut out, &reference.smallest_internal_key) {
            proof {
                assert(rv[k as int] == reference_view(refs@[k as int]));
            }
            return Err(e);
        }
        if let Err(e) = put_table_key(&mut out, &reference.largest_internal_key) {
            proof {
                assert(rv[k as int] == reference_view(refs@[k as int]));
            }
            return Err(e);
        }
        proof {
            assert(rv[k as int] == reference_view(refs@[k as int]));
            assert(rv.take(k + 1).drop_last() =~= rv.take(k as int));
            assert(rv.take(k + 1).last() == rv[k as int]);
            assert(out@ =~= middle + references_bytes(rv.take(k + 1)));
        }
        k = k + 1;
    }
    proof {
        assert(rv.take(k as int) =~= rv);
        assert(out@ =~= properties_bytes(v));
    }
    Ok(out)
}

} // verus!
