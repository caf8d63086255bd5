//! A whole table file: its payload of data blocks and single-block sections
//! with the footer, the header in front of the payload, and what reading a
//! table's metadata back finds.

use vstd::prelude::*;
use crate::codec::CodecId;
use crate::error::{Error, ErrorKind, Result};
use crate::filter::{PointKeyFilter, PrefixFilter};
use crate::manifest_format::ExtractorRecord;
use crate::table::{TableProperties, TableRangeTombstone};
use crate::table_block::{data_block_bytes, data_block_fits, encode_data_block, invalid_table, numbered_fault, point_views, table_fault, PointRecordView, TablePointRecord};
use crate::table::TableSection;
use crate::internal_key::{compare_internal_keys, key_lt};
use crate::bytes::Order;
use crate::blob_format::Fault;
use crate::wire::{checksum, checksum_spec, le16, put_u16, put_u32};
use vstd::bytes::{spec_u16_from_le_bytes, spec_u32_from_le_bytes};
use crate::table_file::{
    append_checked_block, checked_block_bytes, checked_block_fits, footer_bytes, footer_spec, index_coverage_spec, layout_problem, put_footer,
    read_footer, read_single_block_section, section_list, single_block_section_spec, validate_block_codec,
    validate_data_index_covers_section, validate_footer_sections_by_len, SectionHandle, TableFooter, FOOTER_LEN,
    TABLE_HEADER_LEN, TABLE_MAGIC, TABLE_VERSION,
};
use crate::table_format::{
    bound_fits, decode_filter_block, index_entry_fits, point_filter_fits, prefix_filter_fits, properties_fit, tombstone_view, decode_index_block, decode_properties_block, encode_filter_block, encode_index_block,
    encode_properties_block, encode_range_tombstone_block, filter_block_spec, index_block_spec, index_entry_views,
    properties_block_spec,
    index_entries_bytes, point_filter_bytes, point_filter_view, prefix_filter_bytes, prefix_filter_view,
    properties_bytes, properties_view, tombstone_views, tombstones_bytes, BlockHandle, DataBlockIndexEntry,
    FilterParts, IndexEntryView, PropertiesView, TombstoneView,
};
use crate::blob_format::fault_is;
use crate::wire::le32;

verus! {

/// Where the records of a data block lie among the table's records, and the
/// filters over the block's keys and prefixes.
#[derive(Debug)]
pub struct DataBlockLayout {
    pub start: usize,
    pub end: usize,
    pub point_key_filter: Option<PointKeyFilter>,
    pub prefix_filter: Option<PrefixFilter>,
}

/// What a table file holds.
#[derive(Debug)]
pub struct TableContents {
    pub properties: TableProperties,
    pub point_records: Vec<TablePointRecord>,
    pub blocks: Vec<DataBlockLayout>,
    pub range_tombstones: Vec<TableRangeTombstone>,
    pub point_key_filter: Option<PointKeyFilter>,
    pub prefix_filter: Option<PrefixFilter>,
}

pub struct LayoutView {
    pub start: int,
    pub end: int,
    pub point: Option<FilterParts>,
    pub prefix: Option<(ExtractorRecord, FilterParts)>,
}

pub open spec fn layout_view(b: DataBlockLayout) -> LayoutView {
    LayoutView {
        start: b.start as int,
        end: b.end as int,
        point: point_filter_view(b.point_key_filter),
        prefix: prefix_filter_view(b.prefix_filter),
    }
}

pub open spec fn layout_views(blocks: Seq<DataBlockLayout>) -> Seq<LayoutView> {
    blocks.map_values(|b: DataBlockLayout| layout_view(b))
}

/// The first block whose records do not lie among `n` records: the index
/// and whether its range leaves the records (else it is empty).
pub open spec fn block_range_problem(blocks: Seq<LayoutView>, n: int) -> Option<(int, bool)>
    decreases blocks.len(),
{
    if blocks.len() == 0 {
        None
    } else {
        match block_range_problem(blocks.drop_last(), n) {
            Some(p) => Some(p),
            None => {
                let b = blocks.last();
                if b.start > b.end || b.end > n {
                    Some((blocks.len() - 1, true))
                } else if b.start == b.end {
                    Some((blocks.len() - 1, false))
                } else {
                    None
                }
            },
        }
    }
}

/// The data section of a table and the index entry of each block: each
/// block's records, encoded and checked, one after the other.
pub open spec fn data_section_step(codec: CodecId, records: Seq<PointRecordView>, state: (Seq<u8>, Seq<IndexEntryView>), b: LayoutView) -> (Seq<u8>, Seq<IndexEntryView>) {
    let (bytes, entries) = state;
    let chunk = checked_block_bytes(codec, data_block_bytes(records.subrange(b.start, b.end)));
    (
        bytes + chunk,
        entries.push(
            IndexEntryView {
                smallest: records[b.start].key,
                largest: records[b.end - 1].key,
                block: BlockHandle { offset: bytes.len() as u64, len: chunk.len() as u64 },
                point: b.point,
                prefix: b.prefix,
            },
        ),
    )
}

pub open spec fn data_section(codec: CodecId, records: Seq<PointRecordView>, blocks: Seq<LayoutView>) -> (Seq<u8>, Seq<IndexEntryView>)
    decreases blocks.len(),
{
    if blocks.len() == 0 {
        (Seq::empty(), Seq::empty())
    } else {
        data_section_step(codec, records, data_section(codec, records, blocks.drop_last()), blocks.last())
    }
}

/// The payload of a table: the data section, then the range tombstone,
/// filter, index and properties sections of one checked block each, then
/// the footer that says where each section lies.
pub open spec fn table_payload(
    codec: CodecId,
    records: Seq<PointRecordView>,
    blocks: Seq<LayoutView>,
    tombstones: Seq<TombstoneView>,
    point: Option<FilterParts>,
    prefix: Option<(ExtractorRecord, FilterParts)>,
    properties: PropertiesView,
) -> Seq<u8> {
    let (data, entries) = data_section(codec, records, blocks);
    let t = checked_block_bytes(codec, le32(tombstones.len() as u32) + tombstones_bytes(tombstones));
    let f = checked_block_bytes(codec, point_filter_bytes(point) + prefix_filter_bytes(prefix));
    let i = checked_block_bytes(codec, le32(entries.len() as u32) + index_entries_bytes(entries));
    let p = checked_block_bytes(codec, properties_bytes(properties));
    let t_start = data.len();
    let f_start = t_start + t.len();
    let i_start = f_start + f.len();
    let p_start = i_start + i.len();
    let footer = TableFooter {
        data_blocks: SectionHandle { offset: 0, len: data.len() as u64 },
        range_tombstones: SectionHandle { offset: t_start as u64, len: t.len() as u64 },
        filters: SectionHandle { offset: f_start as u64, len: f.len() as u64 },
        indexes: SectionHandle { offset: i_start as u64, len: i.len() as u64 },
        properties: SectionHandle { offset: p_start as u64, len: p.len() as u64 },
    };
    data + t + f + i + p + footer_bytes(footer)
}

pub open spec fn contents_payload(c: TableContents) -> Seq<u8> {
    table_payload(
        c.properties.codec,
        point_views(c.point_records@),
        layout_views(c.blocks@),
        tombstone_views(c.range_tombstones@),
        point_filter_view(c.point_key_filter),
        prefix_filter_view(c.prefix_filter),
        properties_view(c.properties),
    )
}

/// Whether one data block can be written: its records fit the block's
/// fields and its bytes fit a checked block.
pub open spec fn data_block_encodable(codec: CodecId, records: Seq<PointRecordView>, b: LayoutView) -> bool {
    &&& data_block_fits(records.subrange(b.start, b.end))
    &&& checked_block_fits(codec, data_block_bytes(records.subrange(b.start, b.end)))
}

/// Whether every part of a table can be written: each data block, and the
/// range tombstone, filter, index and properties blocks, fit their fields
/// and their checked blocks.
pub open spec fn table_encodable(c: TableContents) -> bool {
    let codec = c.properties.codec;
    let records = point_views(c.point_records@);
    let blocks = layout_views(c.blocks@);
    let tombstones = tombstone_views(c.range_tombstones@);
    let entries = data_section(codec, records, blocks).1;
    let point = point_filter_view(c.point_key_filter);
    let prefix = prefix_filter_view(c.prefix_filter);
    &&& forall|j: int| 0 <= j < blocks.len() ==> data_block_encodable(codec, records, #[trigger] blocks[j])
    &&& c.range_tombstones@.len() <= u32::MAX
    &&& forall|j: int|
        0 <= j < c.range_tombstones@.len() ==> bound_fits(#[trigger] tombstone_view(c.range_tombstones@[j]).start)
            && bound_fits(tombstone_view(c.range_tombstones@[j]).end)
    &&& checked_block_fits(codec, le32(tombstones.len() as u32) + tombstones_bytes(tombstones))
    &&& point_filter_fits(c.point_key_filter) && prefix_filter_fits(c.prefix_filter)
    &&& checked_block_fits(codec, point_filter_bytes(point) + prefix_filter_bytes(prefix))
    &&& entries.len() <= u32::MAX
    &&& forall|j: int| 0 <= j < entries.len() ==> index_entry_fits(#[trigger] entries[j])
    &&& checked_block_fits(codec, le32(entries.len() as u32) + index_entries_bytes(entries))
    &&& properties_fit(properties_view(c.properties))
    &&& checked_block_fits(codec, properties_bytes(properties_view(c.properties)))
}

fn append_section(out: &mut Vec<u8>, codec: CodecId, payload: &[u8]) -> (r: Result<SectionHandle>)
    ensures
        r is Ok <==> checked_block_fits(codec, payload@),
        r matches Ok(h) ==> final(out)@ == old(out)@ + checked_block_bytes(codec, payload@) && h == (SectionHandle {
            offset: old(out)@.len() as u64,
            len: checked_block_bytes(codec, payload@).len() as u64,
        }),
        r matches Err(e) ==> e.kind() == ErrorKind::InvalidOptions,
{
    match append_checked_block(out, codec, payload) {
        Ok(handle) => Ok(SectionHandle { offset: handle.offset, len: handle.len }),
        Err(e) => Err(e),
    }
}

/// Checks that each block's records lie, non-empty, among `n` records.
pub fn check_block_layout(blocks: &[DataBlockLayout], n: usize) -> (r: Result<()>)
    ensures
        match block_range_problem(layout_views(blocks@), n as int) {
            Some((_, true)) => r matches Err(e) && fault_is(e, table_fault("data block record range outside table"@)),
            Some((_, false)) => r matches Err(e) && fault_is(e, table_fault("empty data block"@)),
            None => r is Ok,
        },
{
    let ghost all = layout_views(blocks@);
    let mut i: usize = 0;
    while i < blocks.len()
        invariant
            i <= blocks@.len(),
            all == layout_views(blocks@),
            block_range_problem(all.take(i as int), n as int) is None,
        decreases blocks@.len() - i,
    {
        let block = &blocks[i];
        proof {
            assert(all[i as int] == layout_view(*block));
            assert(all.take(i + 1).drop_last() =~= all.take(i as int));
            assert(all.take(i + 1).last() == all[i as int]);
        }
        if block.start > block.end || block.end > n {
            proof {
                lemma_problem_persists(all, n as int, i + 1);
            }
            return Err(invalid_table("data block record range outside table"));
        }
        if block.start == block.end {
            proof {
                lemma_problem_persists(all, n as int, i + 1);
            }
            return Err(invalid_table("empty data block"));
        }
        i = i + 1;
    }
    proof {
        assert(all.take(i as int) =~= all);
    }
    Ok(())
}

/// Appends one data block, encoded and checked, and its index entry.
fn append_data_block(bytes: &mut Vec<u8>, entries: &mut Vec<DataBlockIndexEntry>, codec: CodecId, records: &[TablePointRecord], block: DataBlockLayout) -> (r: Result<()>)
    requires
        block.start < block.end <= records@.len(),
    ensures
        r is Ok <==> data_block_encodable(codec, point_views(records@), layout_view(block)),
        r is Ok ==> (final(bytes)@, crate::table_format::index_entry_views(final(entries)@)) == data_section_step(
            codec,
            point_views(records@),
            (old(bytes)@, crate::table_format::index_entry_views(old(entries)@)),
            layout_view(block),
        ),
        r matches Err(e) ==> e.kind() == ErrorKind::InvalidOptions,
{
    let ghost rv = point_views(records@);
    let slice = vstd::slice::slice_subrange(records, block.start, block.end);
    proof {
        assert(point_views(slice@) =~= rv.subrange(block.start as int, block.end as int));
    }
    let payload = match encode_data_block(slice) {
        Ok(p) => p,
        Err(e) => return Err(e),
    };
    let ghost before = bytes@;
    let handle = match append_checked_block(bytes, codec, payload.as_slice()) {
        Ok(h) => h,
        Err(e) => return Err(e),
    };
    let DataBlockLayout { start, end, point_key_filter, prefix_filter } = block;
    let entry = DataBlockIndexEntry {
        smallest_internal_key: records[start].internal_key.duplicate(),
        largest_internal_key: records[end - 1].internal_key.duplicate(),
        block: handle,
        point_key_filter,
        prefix_filter,
    };
    let ghost entries_before = entries@;
    entries.push(entry);
    proof {
        assert(rv[start as int] == records@[start as int]@);
        assert(rv[end - 1] == records@[end - 1]@);
        assert(crate::table_format::index_entry_views(entries@) =~= crate::table_format::index_entry_views(
            entries_before,
        ).push(crate::table_format::index_entry_view(entry)));
    }
    Ok(())
}

/// Encodes the payload of a table file. The block layout is checked first;
/// then each block's records are encoded and checked in turn, and its index
/// entry records its first and last keys, its place and its filters.
pub fn encode_table(contents: TableContents) -> (r: Result<Vec<u8>>)
    ensures
        r is Ok <==> block_range_problem(layout_views(contents.blocks@), contents.point_records@.len() as int) is None
            && table_encodable(contents),
        r matches Ok(bytes) ==> bytes@ == contents_payload(contents),
        r matches Err(e) ==> match block_range_problem(
            layout_views(contents.blocks@),
            contents.point_records@.len() as int,
        ) {
            Some((_, true)) => fault_is(e, table_fault("data block record range outside table"@)),
            Some((_, false)) => fault_is(e, table_fault("empty data block"@)),
            None => e.kind() == ErrorKind::InvalidOptions,
        },
{
    let ghost c = contents;
    let codec = contents.properties.codec;
    let ghost records = point_views(contents.point_records@);
    let ghost all = layout_views(contents.blocks@);
    let TableContents { properties, point_records, blocks, range_tombstones, point_key_filter, prefix_filter } = contents;
    match check_block_layout(blocks.as_slice(), point_records.len()) {
        Ok(()) => {},
        Err(e) => return Err(e),
    }
    let ghost n = point_records@.len() as int;
    let mut bytes: Vec<u8> = Vec::new();
    let mut entries: Vec<DataBlockIndexEntry> = Vec::new();
    let mut rest = blocks;
    let ghost mut i: int = 0;
    proof {
        assert(all.take(0) =~= Seq::<LayoutView>::empty());
        assert(crate::table_format::index_entry_views(entries@) =~= Seq::<IndexEntryView>::empty());
    }
    while rest.len() > 0
        invariant
            0 <= i <= all.len(),
            layout_views(rest@) == all.skip(i),
            records == point_views(point_records@),
            n == point_records@.len(),
            block_range_problem(all, n) is None,
            c == contents,
            all == layout_views(c.blocks@),
            n == c.point_records@.len() as int,
            (bytes@, crate::table_format::index_entry_views(entries@)) == data_section(codec, records, all.take(i)),
            forall|j: int| 0 <= j < i ==> data_block_encodable(codec, records, #[trigger] all[j]),
            records == point_views(c.point_records@),
            codec == c.properties.codec,
        decreases rest@.len(),
    {
        let ghost rest_before = rest@;
        let block = rest.remove(0);
        proof {
            assert(layout_views(rest_before)[0] == layout_view(block));
            assert(layout_views(rest_before).len() == rest_before.len());
            assert(i < all.len());
            assert(all.skip(i)[0] == all[i]);
            assert(layout_view(block) == all[i]);
            assert(layout_views(rest@) =~= layout_views(rest_before).skip(1));
            assert(all.skip(i).skip(1) =~= all.skip(i + 1));
            assert(all.take(i + 1).drop_last() =~= all.take(i));
            assert(all.take(i + 1).last() == all[i]);
            lemma_no_problem_block(all, n, i);
        }
        match append_data_block(&mut bytes, &mut entries, codec, point_records.as_slice(), block) {
            Ok(()) => {},
            Err(e) => {
                proof {
                    assert(!data_block_encodable(codec, records, all[i]));
                    assert(0 <= i < layout_views(c.blocks@).len());
                    assert(layout_views(c.blocks@)[i] == all[i]);
                    assert(!table_encodable(c));
                }
                return Err(e);
            },
        }
        proof {
            i = i + 1;
        }
    }
    proof {
        assert(all.skip(i).len() == 0);
        assert(all.take(i) =~= all);
    }
    let data_len = bytes.len();
    let tombstone_block = match encode_range_tombstone_block(range_tombstones.as_slice()) {
        Ok(b) => b,
        Err(e) => return Err(e),
    };
    let tombstones = match append_section(&mut bytes, codec, tombstone_block.as_slice()) {
        Ok(h) => h,
        Err(e) => return Err(e),
    };
    let filter_block = match encode_filter_block(&point_key_filter, &prefix_filter) {
        Ok(b) => b,
        Err(e) => return Err(e),
    };
    let filters = match append_section(&mut bytes, codec, filter_block.as_slice()) {
        Ok(h) => h,
        Err(e) => return Err(e),
    };
    let index_block = match encode_index_block(entries.as_slice()) {
        Ok(b) => b,
        Err(e) => return Err(e),
    };
    let indexes = match append_section(&mut bytes, codec, index_block.as_slice()) {
        Ok(h) => h,
        Err(e) => return Err(e),
    };
    let properties_block = match encode_properties_block(&properties) {
        Ok(b) => b,
        Err(e) => return Err(e),
    };
    let properties_section = match append_section(&mut bytes, codec, properties_block.as_slice()) {
        Ok(h) => h,
        Err(e) => return Err(e),
    };
    let footer = TableFooter {
        data_blocks: SectionHandle { offset: 0, len: data_len as u64 },
        range_tombstones: tombstones,
        filters,
        indexes,
        properties: properties_section,
    };
    put_footer(&mut bytes, &footer);
    proof {
        assert(bytes@ =~= contents_payload(c));
        assert(table_encodable(c));
    }
    Ok(bytes)
}

proof fn lemma_no_problem_block(blocks: Seq<LayoutView>, n: int, i: int)
    requires
        0 <= i < blocks.len(),
        block_range_problem(blocks, n) is None,
    ensures
        blocks[i].start < blocks[i].end <= n,
    decreases blocks.len(),
{
    if i < blocks.len() - 1 {
        assert(blocks.drop_last()[i] == blocks[i]);
        lemma_no_problem_block(blocks.drop_last(), n, i);
    }
}

proof fn lemma_problem_prefix(blocks: Seq<LayoutView>, n: int, k: int, m: int)
    requires
        0 <= k <= m <= blocks.len(),
        block_range_problem(blocks.take(k), n) is Some,
    ensures
        block_range_problem(blocks.take(m), n) == block_range_problem(blocks.take(k), n),
    decreases m - k,
{
    if m > k {
        lemma_problem_prefix(blocks, n, k, m - 1);
        assert(blocks.take(m).drop_last() =~= blocks.take(m - 1));
    }
}

proof fn lemma_problem_persists(blocks: Seq<LayoutView>, n: int, k: int)
    requires
        0 < k <= blocks.len(),
        block_range_problem(blocks.take(k - 1), n) is None,
        blocks[k - 1].start > blocks[k - 1].end || blocks[k - 1].end > n || blocks[k - 1].start == blocks[k - 1].end,
    ensures
        block_range_problem(blocks, n) == Some((
            k - 1,
            blocks[k - 1].start > blocks[k - 1].end || blocks[k - 1].end > n,
        )),
{
    assert(blocks.take(k).drop_last() =~= blocks.take(k - 1));
    assert(blocks.take(k).last() == blocks[k - 1]);
    lemma_problem_prefix(blocks, n, k, blocks.len() as int);
    assert(blocks.take(blocks.len() as int) =~= blocks);
}

// ---------------------------------------------------------------- file header

/// A table file: its magic, its version, the payload's length and checksum,
/// then the payload.
pub open spec fn table_file_spec(payload: Seq<u8>) -> Seq<u8> {
    le32(TABLE_MAGIC) + le16(TABLE_VERSION) + le32(payload.len() as u32) + le32(checksum_spec(payload)) + payload
}

/// The bytes of a table file with this payload.
pub fn table_file_bytes(payload: &[u8]) -> (r: Result<Vec<u8>>)
    ensures
        r is Ok <==> payload@.len() <= u32::MAX,
        r matches Ok(bytes) ==> bytes@ == table_file_spec(payload@),
        r matches Err(e) ==> e.kind() == ErrorKind::InvalidOptions && e.message_view()
            == "table payload exceeds u32::MAX"@,
{
    if payload.len() > 0xffff_ffff {
        return Err(Error::invalid_options("table payload exceeds u32::MAX"));
    }
    let mut bytes: Vec<u8> = Vec::new();
    put_u32(&mut bytes, TABLE_MAGIC);
    put_u16(&mut bytes, TABLE_VERSION);
    put_u32(&mut bytes, payload.len() as u32);
    put_u32(&mut bytes, checksum(payload));
    crate::bytes::append_bytes(&mut bytes, payload);
    proof {
        assert(bytes@ =~= table_file_spec(payload@));
    }
    Ok(bytes)
}

/// What a table file's header says: the payload's length, given the file's
/// length; or why the file is not a table of this version.
pub open spec fn table_header_spec(header: Seq<u8>, file_len: u64) -> core::result::Result<int, Fault> {
    let magic = spec_u32_from_le_bytes(header.subrange(0, 4));
    let version = spec_u16_from_le_bytes(header.subrange(4, 6));
    let payload_len = spec_u32_from_le_bytes(header.subrange(6, 10));
    if magic != TABLE_MAGIC {
        Err(Fault { kind: ErrorKind::Corruption, message: "table magic mismatch"@, exact: true })
    } else if version != TABLE_VERSION {
        Err(numbered_fault(ErrorKind::UnsupportedFormat, "unsupported table version "@, version as nat))
    } else if file_len != TABLE_HEADER_LEN + payload_len {
        Err(Fault { kind: ErrorKind::Corruption, message: "table length mismatch"@, exact: true })
    } else {
        Ok(payload_len as int)
    }
}

/// Checks a table file's header against the file's length and gives the
/// payload's length.
pub fn check_table_header(header: &[u8], file_len: u64) -> (r: Result<usize>)
    requires
        header@.len() == TABLE_HEADER_LEN,
    ensures
        match table_header_spec(header@, file_len) {
            Ok(n) => r matches Ok(len) && len as int == n,
            Err(f) => r matches Err(e) && fault_is(e, f),
        },
{
    let magic = vstd::bytes::u32_from_le_bytes(vstd::slice::slice_subrange(header, 0, 4));
    let version = vstd::bytes::u16_from_le_bytes(vstd::slice::slice_subrange(header, 4, 6));
    let payload_len = vstd::bytes::u32_from_le_bytes(vstd::slice::slice_subrange(header, 6, 10));
    if magic != TABLE_MAGIC {
        return Err(Error::corruption("table magic mismatch"));
    }
    if version != TABLE_VERSION {
        let mut message = String::from_str("unsupported table version ");
        crate::text::push_decimal(&mut message, version as u64);
        return Err(Error::UnsupportedFormat { message });
    }
    if file_len != 14 + payload_len as u64 {
        return Err(Error::corruption("table length mismatch"));
    }
    Ok(payload_len as usize)
}

// ---------------------------------------------------------------- metadata

/// What a table's payload says of the table without reading its data
/// blocks: the footer, the properties, the index entries and the table's
/// filters.
#[derive(Debug)]
pub struct TableMetadata {
    pub footer: TableFooter,
    pub properties: TableProperties,
    pub index_entries: Vec<DataBlockIndexEntry>,
    pub point_key_filter: Option<PointKeyFilter>,
    pub prefix_filter: Option<PrefixFilter>,
}

/// What reading a table's metadata finds.
pub enum MetadataOutcome {
    Read(TableFooter, PropertiesView, Seq<IndexEntryView>, Option<FilterParts>, Option<(ExtractorRecord, FilterParts)>),
    Failed(Fault),
    /// A section's block codec differs from the table's codec.
    CodecMismatch,
    /// An index entry's last key sorts before its first.
    InvertedKeyBounds,
}

/// Some index entry's last key sorts before its first.
pub open spec fn has_inverted_entry(entries: Seq<IndexEntryView>) -> bool {
    exists|i: int| 0 <= i < entries.len() && key_lt((#[trigger] entries[i]).largest, entries[i].smallest)
}

/// Reading a table's metadata: the footer and the layout of its sections;
/// the properties, whose codec every section must have; the index, which
/// must cover the data section exactly, with no entry's keys inverted; then
/// the filters.
pub open spec fn metadata_spec(p: Seq<u8>) -> MetadataOutcome {
    if p.len() < FOOTER_LEN {
        MetadataOutcome::Failed(table_fault("short footer"@))
    } else {
        match footer_spec(p.subrange(p.len() - FOOTER_LEN, p.len() as int)) {
            Err(f) => MetadataOutcome::Failed(f),
            Ok(footer) => match layout_problem(section_list(footer), 0, 0, p.len() - FOOTER_LEN) {
                Some(f) => MetadataOutcome::Failed(f),
                None => match single_block_section_spec(p, footer.properties) {
                    Err(f) => MetadataOutcome::Failed(f),
                    Ok((pc, pb)) => match properties_block_spec(pb) {
                        Err(f) => MetadataOutcome::Failed(f),
                        Ok(props) => if pc != props.table.codec {
                            MetadataOutcome::CodecMismatch
                        } else {
                            match single_block_section_spec(p, footer.indexes) {
                                Err(f) => MetadataOutcome::Failed(f),
                                Ok((ic, ib)) => if ic != props.table.codec {
                                    MetadataOutcome::CodecMismatch
                                } else {
                                    match index_block_spec(ib) {
                                        Err(f) => MetadataOutcome::Failed(f),
                                        Ok(entries) => match index_coverage_spec(entries, footer.data_blocks) {
                                            Some(f) => MetadataOutcome::Failed(f),
                                            None => if has_inverted_entry(entries) {
                                                MetadataOutcome::InvertedKeyBounds
                                            } else {
                                                match single_block_section_spec(p, footer.filters) {
                                                    Err(f) => MetadataOutcome::Failed(f),
                                                    Ok((fc, fb)) => if fc != props.table.codec {
                                                        MetadataOutcome::CodecMismatch
                                                    } else {
                                                        match filter_block_spec(fb) {
                                                            Err(f) => MetadataOutcome::Failed(f),
                                                            Ok((point, prefix)) => MetadataOutcome::Read(
                                                                footer,
                                                                props,
                                                                entries,
                                                                point,
                                                                prefix,
                                                            ),
                                                        }
                                                    },
                                                }
                                            },
                                        },
                                    }
                                },
                            }
                        },
                    },
                },
            },
        }
    }
}

/// Checks that no index entry's last key sorts before its first.
fn check_index_key_bounds(entries: &[DataBlockIndexEntry]) -> (r: Result<()>)
    ensures
        has_inverted_entry(index_entry_views(entries@)) ==> (r matches Err(e) && e.kind() == ErrorKind::Corruption
            && e.message_view() == "data block index key bounds are inverted"@),
        !has_inverted_entry(index_entry_views(entries@)) ==> r is Ok,
{
    let ghost views = index_entry_views(entries@);
    let mut i: usize = 0;
    while i < entries.len()
        invariant
            i <= entries@.len(),
            views == index_entry_views(entries@),
            forall|k: int| 0 <= k < i ==> !key_lt((#[trigger] views[k]).largest, views[k].smallest),
        decreases entries@.len() - i,
    {
        proof {
            assert(views[i as int] == crate::table_format::index_entry_view(entries@[i as int]));
        }
        match compare_internal_keys(&entries[i].smallest_internal_key, &entries[i].largest_internal_key) {
            Order::Greater => {
                proof {
                    crate::internal_key::lemma_key_order_antisym(views[i as int].smallest, views[i as int].largest);
                }
                return Err(Error::corruption("data block index key bounds are inverted"));
            },
            _ => {
                proof {
                    crate::internal_key::lemma_key_order_antisym(views[i as int].smallest, views[i as int].largest);
                }
            },
        }
        i = i + 1;
    }
    Ok(())
}

/// Reads a table's metadata from its payload.
pub fn decode_table_metadata(payload: &[u8]) -> (r: Result<TableMetadata>)
    ensures
        match metadata_spec(payload@) {
            MetadataOutcome::Read(footer, props, entries, point, prefix) => r matches Ok(m) && m.footer == footer
                && properties_view(m.properties) == props && index_entry_views(m.index_entries@) == entries
                && point_filter_view(m.point_key_filter) == point && prefix_filter_view(m.prefix_filter) == prefix,
            MetadataOutcome::Failed(f) => r matches Err(e) && fault_is(e, f),
            MetadataOutcome::CodecMismatch => r matches Err(e) && e.kind() == ErrorKind::Corruption,
            MetadataOutcome::InvertedKeyBounds => r matches Err(e) && e.kind() == ErrorKind::Corruption
                && e.message_view() == "data block index key bounds are inverted"@,
        },
{
    let footer = match read_footer(payload) {
        Ok(f) => f,
        Err(e) => return Err(e),
    };
    match validate_footer_sections_by_len(payload.len(), &footer) {
        Ok(()) => {},
        Err(e) => return Err(e),
    }
    let (properties_codec, properties_payload) = match read_single_block_section(payload, footer.properties) {
        Ok(v) => v,
        Err(e) => return Err(e),
    };
    let properties = match decode_properties_block(properties_payload.as_slice()) {
        Ok(p) => p,
        Err(e) => return Err(e),
    };
    match validate_block_codec(properties_codec, properties.codec, TableSection::Properties) {
        Ok(()) => {},
        Err(e) => return Err(e),
    }
    let (index_codec, index_payload) = match read_single_block_section(payload, footer.indexes) {
        Ok(v) => v,
        Err(e) => return Err(e),
    };
    match validate_block_codec(index_codec, properties.codec, TableSection::Indexes) {
        Ok(()) => {},
        Err(e) => return Err(e),
    }
    let index_entries = match decode_index_block(index_payload.as_slice()) {
        Ok(v) => v,
        Err(e) => return Err(e),
    };
    match validate_data_index_covers_section(index_entries.as_slice(), footer.data_blocks) {
        Ok(()) => {},
        Err(e) => return Err(e),
    }
    match check_index_key_bounds(index_entries.as_slice()) {
        Ok(()) => {},
        Err(e) => return Err(e),
    }
    let (filter_codec, filter_payload) = match read_single_block_section(payload, footer.filters) {
        Ok(v) => v,
        Err(e) => return Err(e),
    };
    match validate_block_codec(filter_codec, properties.codec, TableSection::Filters) {
        Ok(()) => {},
        Err(e) => return Err(e),
    }
    let (point_key_filter, prefix_filter) = match decode_filter_block(filter_payload.as_slice()) {
        Ok(v) => v,
        Err(e) => return Err(e),
    };
    Ok(TableMetadata { footer, properties, index_entries, point_key_filter, prefix_filter })
}

} // verus!
