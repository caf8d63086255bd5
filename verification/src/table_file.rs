//! The frame of a table file: each block is stored with a header (codec,
//! decoded length, stored length, checksum of the stored bytes), and a
//! footer at the end of the payload locates the five sections (data blocks,
//! range tombstones, filters, index, properties). Reading checks each
//! header, the footer's checksum, and that the sections tile the payload.

use vstd::prelude::*;
use vstd::bytes::{spec_u16_from_le_bytes, spec_u32_from_le_bytes, spec_u64_from_le_bytes};
use crate::blob_format::{codec_of_tag, codec_tag, fault_is, put_codec, Fault};
use crate::codec::{block_codable, block_decoded, block_encoded, codec_name, decode_block, encode_block, CodecId};
use crate::error::{Error, ErrorKind, Result};
use crate::internal_key::{compare_internal_keys, key_lt, key_order, InternalKeyView};
use crate::table::TableSection;
use crate::table_block::{invalid_table, numbered_fault, point_views, table_fault, PointRecordView, TablePointRecord};
use crate::table_format::{index_entry_view, index_entry_views, BlockHandle, DataBlockIndexEntry, IndexEntryView};
use crate::text::{decimal, push_decimal};
use crate::wire::{checksum, checksum_spec, le16, le32, le64, put_u16, put_u32, put_u64, put_u8};

verus! {

pub const TABLE_MAGIC: u32 = 0x5452_5442;

pub const TABLE_VERSION: u16 = 4;

pub const TABLE_HEADER_LEN: usize = 14;

pub const FOOTER_MAGIC: u32 = 0x5452_5446;

pub const FOOTER_LEN: usize = 90;

pub const BLOCK_HEADER_LEN: usize = 13;

// ---------------------------------------------------------------- checked blocks

/// The bytes of a stored block: the codec tag, the decoded length, the
/// stored length, the checksum of the stored bytes, then the stored bytes.
pub open spec fn checked_block_bytes(codec: CodecId, payload: Seq<u8>) -> Seq<u8> {
    let encoded = block_encoded(codec, payload);
    seq![codec_tag(codec)] + le32(payload.len() as u32) + le32(encoded.len() as u32) + le32(checksum_spec(encoded))
        + encoded
}

/// The fault of a block that does not decode; only its kind is fixed.
pub open spec fn undecodable_block() -> Fault {
    Fault { kind: ErrorKind::InvalidFormat, message: Seq::empty(), exact: false }
}

/// What a stored block holds: its codec and decoded bytes; or why it
/// cannot be read.
pub open spec fn checked_block_spec(s: Seq<u8>) -> core::result::Result<(CodecId, Seq<u8>), Fault> {
    if s.len() < BLOCK_HEADER_LEN {
        Err(table_fault("short block header"@))
    } else {
        match codec_of_tag(s[0]) {
            None => Err(numbered_fault(ErrorKind::UnsupportedFormat, "unknown table codec "@, s[0] as nat)),
            Some(codec) => {
                let decoded_len = spec_u32_from_le_bytes(s.subrange(1, 5));
                let stored_len = spec_u32_from_le_bytes(s.subrange(5, 9));
                let stored_checksum = spec_u32_from_le_bytes(s.subrange(9, 13));
                let stored = s.subrange(BLOCK_HEADER_LEN as int, s.len() as int);
                if s.len() != BLOCK_HEADER_LEN + stored_len {
                    Err(Fault { kind: ErrorKind::Corruption, message: "block length mismatch"@, exact: true })
                } else if checksum_spec(stored) != stored_checksum {
                    Err(Fault { kind: ErrorKind::Corruption, message: "block checksum mismatch"@, exact: true })
                } else {
                    match block_decoded(codec, stored, decoded_len as nat) {
                        Some(payload) => Ok((codec, payload)),
                        None => Err(undecodable_block()),
                    }
                }
            },
        }
    }
}

/// Whether a payload can be stored as a checked block: its codec can store
/// it, and both lengths fit their `u32` fields.
pub open spec fn checked_block_fits(codec: CodecId, payload: Seq<u8>) -> bool {
    &&& block_codable(codec, payload)
    &&& payload.len() <= u32::MAX
    &&& block_encoded(codec, payload).len() <= u32::MAX
}

/// Appends a block stored with `codec` and returns where it lies. Fails,
/// leaving `out` as it was, when the codec cannot store the payload or a
/// length does not fit its `u32` field.
pub fn append_checked_block(out: &mut Vec<u8>, codec: CodecId, payload: &[u8]) -> (r: Result<BlockHandle>)
    ensures
        r is Ok <==> checked_block_fits(codec, payload@),
        r matches Ok(handle) ==> final(out)@ == old(out)@ + checked_block_bytes(codec, payload@) && handle.offset
            == old(out)@.len() && handle.len == checked_block_bytes(codec, payload@).len(),
        r matches Ok(handle) ==> checked_block_spec(checked_block_bytes(codec, payload@)) == Ok::<
            (CodecId, Seq<u8>),
            Fault,
        >((codec, payload@)),
        r is Err ==> final(out)@ == old(out)@,
        r matches Err(e) ==> e.kind() == ErrorKind::InvalidOptions,
{
    let encoded = match encode_block(codec, payload) {
        Ok(bytes) => bytes,
        Err(e) => return Err(e),
    };
    if payload.len() > 0xffff_ffff {
        return Err(Error::invalid_options("block payload length exceeds u32::MAX"));
    }
    if encoded.len() > 0xffff_ffff {
        return Err(Error::invalid_options("encoded block length exceeds u32::MAX"));
    }
    let start = out.len();
    let ghost before = out@;
    put_codec(out, codec);
    put_u32(out, payload.len() as u32);
    put_u32(out, encoded.len() as u32);
    put_u32(out, checksum(encoded.as_slice()));
    crate::bytes::append_bytes(out, encoded.as_slice());
    proof {
        assert(out@ =~= before + checked_block_bytes(codec, payload@));
        lemma_checked_block_round_trip(codec, payload@);
    }
    Ok(BlockHandle { offset: start as u64, len: (out.len() - start) as u64 })
}

/// Reading a stored block gives the codec and the bytes stored.
pub proof fn lemma_checked_block_round_trip(codec: CodecId, payload: Seq<u8>)
    requires
        payload.len() <= u32::MAX,
        block_encoded(codec, payload).len() <= u32::MAX,
        block_decoded(codec, block_encoded(codec, payload), payload.len()) == Some(payload),
    ensures
        checked_block_spec(checked_block_bytes(codec, payload)) == Ok::<(CodecId, Seq<u8>), Fault>((codec, payload)),
{
    let encoded = block_encoded(codec, payload);
    let s = checked_block_bytes(codec, payload);
    crate::wire::lemma_le_lengths(0, payload.len() as u32, 0);
    crate::wire::lemma_le_lengths(0, encoded.len() as u32, 0);
    crate::wire::lemma_le_lengths(0, checksum_spec(encoded), 0);
    vstd::bytes::lemma_auto_spec_u32_to_from_le_bytes();
    assert(s.subrange(1, 5) =~= le32(payload.len() as u32));
    assert(s.subrange(5, 9) =~= le32(encoded.len() as u32));
    assert(s.subrange(9, 13) =~= le32(checksum_spec(encoded)));
    assert(s.subrange(13, s.len() as int) =~= encoded);
    assert(codec_of_tag(codec_tag(codec)) == Some(codec));
}

/// Reads a stored block: checks the header, the stored length and the
/// checksum, then decodes the stored bytes.
pub fn read_checked_block_bytes(block: &[u8]) -> (r: Result<(CodecId, Vec<u8>)>)
    ensures
        match checked_block_spec(block@) {
            Ok((codec, payload)) => r matches Ok((c, bytes)) && c == codec && bytes@ == payload,
            Err(f) => r matches Err(e) && fault_is(e, f),
        },
{
    if block.len() < BLOCK_HEADER_LEN {
        return Err(invalid_table("short block header"));
    }
    let codec = match block[0] {
        0 => CodecId::Uncompressed,
        1 => CodecId::FastLz4Block,
        tag => {
            let mut message = String::from_str("unknown table codec ");
            push_decimal(&mut message, tag as u64);
            return Err(Error::UnsupportedFormat { message });
        },
    };
    let decoded_len = vstd::bytes::u32_from_le_bytes(vstd::slice::slice_subrange(block, 1, 5));
    let stored_len = vstd::bytes::u32_from_le_bytes(vstd::slice::slice_subrange(block, 5, 9));
    let stored_checksum = vstd::bytes::u32_from_le_bytes(vstd::slice::slice_subrange(block, 9, 13));
    if (block.len() as u64) != (BLOCK_HEADER_LEN as u64) + (stored_len as u64) {
        return Err(Error::corruption("block length mismatch"));
    }
    let stored = vstd::slice::slice_subrange(block, BLOCK_HEADER_LEN, block.len());
    if checksum(stored) != stored_checksum {
        return Err(Error::corruption("block checksum mismatch"));
    }
    match decode_block(codec, stored, decoded_len as usize) {
        Ok(payload) => Ok((codec, payload)),
        Err(e) => Err(e),
    }
}

/// A block read from a section must use the table's codec.
pub fn validate_block_codec(actual: CodecId, expected: CodecId, section: TableSection) -> (r: Result<()>)
    ensures
        r is Ok <==> actual == expected,
        r matches Err(e) ==> e.kind() == ErrorKind::Corruption
            && e.message_view() == codec_mismatch_message(actual, expected, section),
{
    if actual == expected {
        return Ok(());
    }
    let mut message = String::from_str("table ");
    message.append(section_name(section));
    message.append(" block codec ");
    message.append(actual.as_str());
    message.append(" does not match table codec ");
    message.append(expected.as_str());
    Err(Error::Corruption { message })
}

/// The name of a section as it appears in error messages.
pub open spec fn section_label(section: TableSection) -> &'static str {
    match section {
        TableSection::DataBlocks => "DataBlocks",
        TableSection::RangeTombstones => "RangeTombstones",
        TableSection::Filters => "Filters",
        TableSection::Indexes => "Indexes",
        TableSection::Properties => "Properties",
        TableSection::Footer => "Footer",
    }
}

/// The message of the error for a block whose codec is not the table's.
pub open spec fn codec_mismatch_message(actual: CodecId, expected: CodecId, section: TableSection) -> Seq<char> {
    "table "@ + section_label(section)@ + " block codec "@ + codec_name(actual)@
        + " does not match table codec "@ + codec_name(expected)@
}

fn section_name(section: TableSection) -> (r: &'static str)
    ensures
        r == section_label(section),
{
    match section {
        TableSection::DataBlocks => "DataBlocks",
        TableSection::RangeTombstones => "RangeTombstones",
        TableSection::Filters => "Filters",
        TableSection::Indexes => "Indexes",
        TableSection::Properties => "Properties",
        TableSection::Footer => "Footer",
    }
}

// ---------------------------------------------------------------- footer

/// Where a section of the payload lies.
#[derive(Debug, Clone, Copy, PartialEq, Eq, Structural)]
pub struct SectionHandle {
    pub offset: u64,
    pub len: u64,
}

/// The footer of a table file: where each section lies.
#[derive(Debug, Clone, Copy, PartialEq, Eq, Structural)]
pub struct TableFooter {
    pub data_blocks: SectionHandle,
    pub range_tombstones: SectionHandle,
    pub filters: SectionHandle,
    pub indexes: SectionHandle,
    pub properties: SectionHandle,
}

pub open spec fn handle_bytes(h: SectionHandle) -> Seq<u8> {
    le64(h.offset) + le64(h.len)
}

pub open spec fn footer_fields(f: TableFooter) -> Seq<u8> {
    le32(FOOTER_MAGIC) + le16(TABLE_VERSION) + handle_bytes(f.data_blocks) + handle_bytes(f.range_tombstones)
        + handle_bytes(f.filters) + handle_bytes(f.indexes) + handle_bytes(f.properties)
}

/// The bytes of a footer: its fields and their checksum.
pub open spec fn footer_bytes(f: TableFooter) -> Seq<u8> {
    footer_fields(f) + le32(checksum_spec(footer_fields(f)))
}

pub open spec fn handle_at(s: Seq<u8>, p: int) -> SectionHandle {
    SectionHandle {
        offset: spec_u64_from_le_bytes(s.subrange(p, p + 8)),
        len: spec_u64_from_le_bytes(s.subrange(p + 8, p + 16)),
    }
}

/// What footer bytes hold, or why they cannot be read.
pub open spec fn footer_spec(s: Seq<u8>) -> core::result::Result<TableFooter, Fault> {
    if s.len() != FOOTER_LEN {
        Err(table_fault("short footer"@))
    } else if checksum_spec(s.subrange(0, 86)) != spec_u32_from_le_bytes(s.subrange(86, 90)) {
        Err(Fault { kind: ErrorKind::Corruption, message: "table footer checksum mismatch"@, exact: true })
    } else if spec_u32_from_le_bytes(s.subrange(0, 4)) != FOOTER_MAGIC {
        Err(Fault { kind: ErrorKind::Corruption, message: "table footer magic mismatch"@, exact: true })
    } else if spec_u16_from_le_bytes(s.subrange(4, 6)) != TABLE_VERSION {
        Err(
            numbered_fault(
                ErrorKind::UnsupportedFormat,
                "unsupported table footer version "@,
                spec_u16_from_le_bytes(s.subrange(4, 6)) as nat,
            ),
        )
    } else {
        Ok(
            TableFooter {
                data_blocks: handle_at(s, 6),
                range_tombstones: handle_at(s, 22),
                filters: handle_at(s, 38),
                indexes: handle_at(s, 54),
                properties: handle_at(s, 70),
            },
        )
    }
}

fn put_section_handle(out: &mut Vec<u8>, h: SectionHandle)
    ensures
        final(out)@ == old(out)@ + handle_bytes(h),
{
    let ghost start = out@;
    put_u64(out, h.offset);
    put_u64(out, h.len);
    proof {
        assert(out@ =~= start + handle_bytes(h));
    }
}

/// Appends a footer.
pub fn put_footer(out: &mut Vec<u8>, footer: &TableFooter)
    ensures
        final(out)@ == old(out)@ + footer_bytes(*footer),
{
    let mut fields: Vec<u8> = Vec::new();
    put_u32(&mut fields, FOOTER_MAGIC);
    put_u16(&mut fields, TABLE_VERSION);
    put_section_handle(&mut fields, footer.data_blocks);
    put_section_handle(&mut fields, footer.range_tombstones);
    put_section_handle(&mut fields, footer.filters);
    put_section_handle(&mut fields, footer.indexes);
    put_section_handle(&mut fields, footer.properties);
    proof {
        assert(fields@ =~= footer_fields(*footer));
    }
    let sum = checksum(fields.as_slice());
    put_u32(&mut fields, sum);
    let ghost start = out@;
    crate::bytes::append_bytes(out, fields.as_slice());
}

fn handle_from(bytes: &[u8], p: usize) -> (r: SectionHandle)
    requires
        bytes@.len() == FOOTER_LEN,
        p + 16 <= bytes@.len(),
    ensures
        r == handle_at(bytes@, p as int),
{
    let offset = vstd::bytes::u64_from_le_bytes(vstd::slice::slice_subrange(bytes, p, p + 8));
    let len = vstd::bytes::u64_from_le_bytes(vstd::slice::slice_subrange(bytes, p + 8, p + 16));
    SectionHandle { offset, len }
}

/// Reads footer bytes: the length, the checksum, the magic and the version,
/// then the section handles.
pub fn read_footer_bytes(footer: &[u8]) -> (r: Result<TableFooter>)
    ensures
        match footer_spec(footer@) {
            Ok(f) => r == Ok::<TableFooter, Error>(f),
            Err(f) => r matches Err(e) && fault_is(e, f),
        },
{
    if footer.len() != FOOTER_LEN {
        return Err(invalid_table("short footer"));
    }
    let stored = vstd::bytes::u32_from_le_bytes(vstd::slice::slice_subrange(footer, 86, 90));
    if checksum(vstd::slice::slice_subrange(footer, 0, 86)) != stored {
        return Err(Error::corruption("table footer checksum mismatch"));
    }
    let magic = vstd::bytes::u32_from_le_bytes(vstd::slice::slice_subrange(footer, 0, 4));
    if magic != FOOTER_MAGIC {
        return Err(Error::corruption("table footer magic mismatch"));
    }
    let version = vstd::bytes::u16_from_le_bytes(vstd::slice::slice_subrange(footer, 4, 6));
    if version != TABLE_VERSION {
        let mut message = String::from_str("unsupported table footer version ");
        push_decimal(&mut message, version as u64);
        return Err(Error::UnsupportedFormat { message });
    }
    Ok(
        TableFooter {
            data_blocks: handle_from(footer, 6),
            range_tombstones: handle_from(footer, 22),
            filters: handle_from(footer, 38),
            indexes: handle_from(footer, 54),
            properties: handle_from(footer, 70),
        },
    )
}

/// Reads the footer at the end of a table payload.
pub fn read_footer(payload: &[u8]) -> (r: Result<TableFooter>)
    ensures
        payload@.len() < FOOTER_LEN ==> (r matches Err(e) && fault_is(e, table_fault("short footer"@))),
        payload@.len() >= FOOTER_LEN ==> match footer_spec(
            payload@.subrange(payload@.len() - FOOTER_LEN, payload@.len() as int),
        ) {
            Ok(f) => r == Ok::<TableFooter, Error>(f),
            Err(f) => r matches Err(e) && fault_is(e, f),
        },
{
    if payload.len() < FOOTER_LEN {
        return Err(invalid_table("short footer"));
    }
    read_footer_bytes(vstd::slice::slice_subrange(payload, payload.len() - FOOTER_LEN, payload.len()))
}

/// Reading a footer's bytes gives the footer.
#[verifier::spinoff_prover]
#[verifier::rlimit(40)]
pub proof fn lemma_footer_round_trip(f: TableFooter)
    ensures
        footer_spec(footer_bytes(f)) == Ok::<TableFooter, Fault>(f),
{
    let fields = footer_fields(f);
    let s = footer_bytes(f);
    vstd::bytes::lemma_auto_spec_u16_to_from_le_bytes();
    vstd::bytes::lemma_auto_spec_u32_to_from_le_bytes();
    vstd::bytes::lemma_auto_spec_u64_to_from_le_bytes();
    crate::wire::lemma_le_lengths(TABLE_VERSION, FOOTER_MAGIC, f.data_blocks.offset);
    crate::wire::lemma_le_lengths(0, checksum_spec(fields), f.data_blocks.len);
    assert(fields.len() == 86);
    assert(s.subrange(0, 86) =~= fields);
    assert(s.subrange(86, 90) =~= le32(checksum_spec(fields)));
    assert(s.subrange(0, 4) =~= le32(FOOTER_MAGIC));
    assert(s.subrange(4, 6) =~= le16(TABLE_VERSION));
    assert(s.subrange(6, 14) =~= le64(f.data_blocks.offset));
    assert(s.subrange(14, 22) =~= le64(f.data_blocks.len));
    assert(s.subrange(22, 30) =~= le64(f.range_tombstones.offset));
    assert(s.subrange(30, 38) =~= le64(f.range_tombstones.len));
    assert(s.subrange(38, 46) =~= le64(f.filters.offset));
    assert(s.subrange(46, 54) =~= le64(f.filters.len));
    assert(s.subrange(54, 62) =~= le64(f.indexes.offset));
    assert(s.subrange(62, 70) =~= le64(f.indexes.len));
    assert(s.subrange(70, 78) =~= le64(f.properties.offset));
    assert(s.subrange(78, 86) =~= le64(f.properties.len));
}

// ---------------------------------------------------------------- section layout

pub open spec fn section_list(f: TableFooter) -> Seq<SectionHandle> {
    seq![f.data_blocks, f.range_tombstones, f.filters, f.indexes, f.properties]
}

/// Why a handle's bounds do not fit this platform, if they do not.
pub open spec fn bounds_fault(offset: u64, len: u64) -> Option<Fault> {
    if offset > usize::MAX {
        Some(table_fault("offset exceeds usize"@))
    } else if len > usize::MAX {
        Some(table_fault("length exceeds usize"@))
    } else if offset + len > usize::MAX {
        Some(table_fault("offset plus length overflows usize"@))
    } else {
        None
    }
}

/// The first problem with sections `i..` when section `i` must start at
/// `expected` and every section must end by `limit`, where the last must
/// end exactly.
pub open spec fn layout_problem(sections: Seq<SectionHandle>, i: int, expected: int, limit: int) -> Option<Fault>
    decreases sections.len() - i,
{
    if i >= sections.len() {
        if expected != limit {
            Some(Fault { kind: ErrorKind::Corruption, message: "table footer does not cover all section bytes"@, exact: true })
        } else {
            None
        }
    } else {
        let h = sections[i];
        match bounds_fault(h.offset, h.len) {
            Some(f) => Some(f),
            None => if h.offset != expected || h.offset + h.len > limit {
                Some(Fault { kind: ErrorKind::Corruption, message: "table section layout is inconsistent"@, exact: true })
            } else {
                layout_problem(sections, i + 1, h.offset + h.len, limit)
            },
        }
    }
}

/// The start and end of a handle as `usize` values.
pub fn handle_bounds(offset: u64, len: u64) -> (r: Result<(usize, usize)>)
    ensures
        match bounds_fault(offset, len) {
            Some(f) => r matches Err(e) && fault_is(e, f),
            None => r == Ok::<(usize, usize), Error>((offset as usize, (offset + len) as usize)),
        },
{
    if offset > usize::MAX as u64 {
        return Err(invalid_table("offset exceeds usize"));
    }
    if len > usize::MAX as u64 {
        return Err(invalid_table("length exceeds usize"));
    }
    let start = offset as usize;
    let length = len as usize;
    match start.checked_add(length) {
        Some(end) => Ok((start, end)),
        None => Err(invalid_table("offset plus length overflows usize")),
    }
}

/// The sections follow one another from the start of the payload and end
/// where the footer starts.
pub fn validate_footer_sections_by_len(payload_len: usize, footer: &TableFooter) -> (r: Result<()>)
    requires
        payload_len >= FOOTER_LEN,
    ensures
        match layout_problem(section_list(*footer), 0, 0, payload_len - FOOTER_LEN) {
            Some(f) => r matches Err(e) && fault_is(e, f),
            None => r is Ok,
        },
{
    let footer_start = payload_len - FOOTER_LEN;
    let sections = vec![footer.data_blocks, footer.range_tombstones, footer.filters, footer.indexes, footer.properties];
    proof {
        assert(sections@ =~= section_list(*footer));
    }
    let mut expected: usize = 0;
    let mut i: usize = 0;
    while i < sections.len()
        invariant
            sections@ == section_list(*footer),
            footer_start as int == payload_len - FOOTER_LEN,
            i <= sections@.len(),
            layout_problem(sections@, 0, 0, footer_start as int) == layout_problem(
                sections@,
                i as int,
                expected as int,
                footer_start as int,
            ),
        decreases sections@.len() - i,
    {
        let (start, end) = match handle_bounds(sections[i].offset, sections[i].len) {
            Ok(bounds) => bounds,
            Err(e) => return Err(e),
        };
        if start != expected || end > footer_start {
            return Err(Error::corruption("table section layout is inconsistent"));
        }
        expected = end;
        i = i + 1;
    }
    if expected != footer_start {
        return Err(Error::corruption("table footer does not cover all section bytes"));
    }
    Ok(())
}

// ---------------------------------------------------------------- record checks

/// Each record's internal key comes strictly before the next one's.
pub open spec fn records_strictly_sorted(records: Seq<PointRecordView>) -> bool {
    forall|i: int, j: int|
        0 <= i && j == i + 1 && j < records.len() ==> key_lt(#[trigger] records[i].key, #[trigger] records[j].key)
}

/// The records are strictly sorted by internal key.
pub fn validate_sorted_point_records(records: &[TablePointRecord]) -> (r: Result<()>)
    ensures
        r is Ok <==> records_strictly_sorted(point_views(records@)),
        r matches Err(e) ==> e.kind() == ErrorKind::Corruption && e.message_view()
            == "table point records are not sorted by internal key"@,
{
    let ghost views = point_views(records@);
    let mut i: usize = 1;
    while i < records.len()
        invariant
            views == point_views(records@),
            1 <= i,
            i <= records@.len() || records@.len() == 0,
            forall|a: int, b: int|
                0 <= a && b == a + 1 && b < i && b < views.len() ==> key_lt(#[trigger] views[a].key, #[trigger] views[b].key),
        decreases records@.len() - i,
    {
        proof {
            assert(views[i - 1] == records@[i - 1]@);
            assert(views[i as int] == records@[i as int]@);
        }
        if !crate::internal_key::internal_key_less(&records[i - 1].internal_key, &records[i].internal_key) {
            proof {
                assert(!key_lt(views[i - 1].key, views[i as int].key));
                assert(!records_strictly_sorted(views));
            }
            return Err(Error::corruption("table point records are not sorted by internal key"));
        }
        i = i + 1;
    }
    Ok(())
}

/// The index entry's key bounds are the block's first and last keys, and
/// the block's records are strictly sorted.
pub fn validate_data_block_entry(entry: &DataBlockIndexEntry, records: &[TablePointRecord]) -> (r: Result<()>)
    ensures
        ({
            let views = point_views(records@);
            let e = index_entry_view(*entry);
            if views.len() == 0 {
                r matches Err(err) && err.kind() == ErrorKind::Corruption && err.message_view()
                    == "data block index points to an empty block"@
            } else if views[0].key != e.smallest || views.last().key != e.largest {
                r matches Err(err) && err.kind() == ErrorKind::Corruption && err.message_view()
                    == "data block index key bounds do not match block records"@
            } else {
                &&& r is Ok <==> records_strictly_sorted(views)
                &&& r matches Err(err) ==> err.kind() == ErrorKind::Corruption
            }
        }),
{
    if records.len() == 0 {
        return Err(Error::corruption("data block index points to an empty block"));
    }
    let first = &records[0].internal_key;
    let last = &records[records.len() - 1].internal_key;
    proof {
        crate::internal_key::lemma_key_order_antisym(first@, entry.smallest_internal_key@);
        crate::internal_key::lemma_key_order_antisym(last@, entry.largest_internal_key@);
    }
    let same_first = match compare_internal_keys(first, &entry.smallest_internal_key) {
        crate::bytes::Order::Equal => true,
        _ => false,
    };
    let same_last = match compare_internal_keys(last, &entry.largest_internal_key) {
        crate::bytes::Order::Equal => true,
        _ => false,
    };
    if !same_first || !same_last {
        return Err(Error::corruption("data block index key bounds do not match block records"));
    }
    validate_sorted_point_records(records)
}

/// The first problem with index entries `i..` covering a data section:
/// each block must start where the one before ended and end inside the
/// section, have ordered key bounds, and start after the one before in key
/// order; the last must end where the section ends.
pub open spec fn coverage_problem(
    entries: Seq<IndexEntryView>,
    i: int,
    expected: int,
    section_end: int,
    previous: Option<InternalKeyView>,
) -> Option<Fault>
    decreases entries.len() - i,
{
    if i >= entries.len() {
        if expected != section_end {
            Some(Fault { kind: ErrorKind::Corruption, message: "data block index leaves section bytes unread"@, exact: true })
        } else {
            None
        }
    } else {
        let e = entries[i];
        match bounds_fault(e.block.offset, e.block.len) {
            Some(f) => Some(f),
            None => if e.block.offset != expected || e.block.offset + e.block.len > section_end {
                Some(Fault { kind: ErrorKind::Corruption, message: "data block index does not cover section bytes"@, exact: true })
            } else if key_lt(e.largest, e.smallest) {
                Some(Fault { kind: ErrorKind::Corruption, message: "data block index key bounds are inverted"@, exact: true })
            } else if previous matches Some(p) && !key_lt(p, e.smallest) {
                Some(Fault { kind: ErrorKind::Corruption, message: "data block index entries are not sorted"@, exact: true })
            } else {
                coverage_problem(entries, i + 1, e.block.offset + e.block.len, section_end, Some(e.largest))
            },
        }
    }
}

/// What checking that the index covers the data section reports.
pub open spec fn index_coverage_spec(entries: Seq<IndexEntryView>, section: SectionHandle) -> Option<Fault> {
    match bounds_fault(section.offset, section.len) {
        Some(f) => Some(f),
        None => if entries.len() == 0 {
            if section.len != 0 {
                Some(Fault { kind: ErrorKind::Corruption, message: "data block section is not indexed"@, exact: true })
            } else {
                None
            }
        } else {
            coverage_problem(entries, 0, section.offset as int, section.offset + section.len, None)
        },
    }
}

/// The index entries tile the data section in key order.
pub fn validate_data_index_covers_section(entries: &[DataBlockIndexEntry], data_blocks: SectionHandle) -> (r: Result<()>)
    ensures
        match index_coverage_spec(index_entry_views(entries@), data_blocks) {
            Some(f) => r matches Err(e) && fault_is(e, f),
            None => r is Ok,
        },
{
    let ghost views = index_entry_views(entries@);
    let (section_start, section_end) = match handle_bounds(data_blocks.offset, data_blocks.len) {
        Ok(bounds) => bounds,
        Err(e) => return Err(e),
    };
    if entries.len() == 0 {
        if section_start == section_end {
            return Ok(());
        }
        return Err(Error::corruption("data block section is not indexed"));
    }
    let mut expected: usize = section_start;
    let mut i: usize = 0;
    let mut previous: Option<&crate::internal_key::InternalKey> = None;
    while i < entries.len()
        invariant
            views == index_entry_views(entries@),
            bounds_fault(data_blocks.offset, data_blocks.len) is None,
            section_end as int == data_blocks.offset + data_blocks.len,
            section_start as int == data_blocks.offset,
            entries@.len() > 0,
            i <= entries@.len(),
            coverage_problem(views, 0, section_start as int, section_end as int, None) == coverage_problem(
                views,
                i as int,
                expected as int,
                section_end as int,
                match previous {
                    Some(k) => Some(k@),
                    None => None,
                },
            ),
            i == 0 <==> previous is None,
        decreases entries@.len() - i,
    {
        let entry = &entries[i];
        proof {
            assert(views[i as int] == index_entry_view(entries@[i as int]));
        }
        let (block_start, block_end) = match handle_bounds(entry.block.offset, entry.block.len) {
            Ok(bounds) => bounds,
            Err(e) => return Err(e),
        };
        if block_start != expected || block_end > section_end {
            return Err(Error::corruption("data block index does not cover section bytes"));
        }
        if crate::internal_key::internal_key_less(&entry.largest_internal_key, &entry.smallest_internal_key) {
            return Err(Error::corruption("data block index key bounds are inverted"));
        }
        match previous {
            Some(p) => {
                if !crate::internal_key::internal_key_less(p, &entry.smallest_internal_key) {
                    return Err(Error::corruption("data block index entries are not sorted"));
                }
            },
            None => {},
        }
        expected = block_end;
        previous = Some(&entry.largest_internal_key);
        i = i + 1;
    }
    if expected != section_end {
        return Err(Error::corruption("data block index leaves section bytes unread"));
    }
    Ok(())
}

// ---------------------------------------------------------------- reading sections

/// The stored block a handle points to in the payload, read and decoded;
/// or why it cannot be.
pub open spec fn handle_block_spec(payload: Seq<u8>, block: BlockHandle) -> core::result::Result<(CodecId, Seq<u8>), Fault> {
    match bounds_fault(block.offset, block.len) {
        Some(f) => Err(f),
        None => if block.offset + block.len > payload.len() {
            Err(table_fault("block outside table payload"@))
        } else {
            checked_block_spec(payload.subrange(block.offset as int, block.offset + block.len))
        },
    }
}

/// Reads the stored block a handle points to in the payload.
pub fn read_checked_block(payload: &[u8], block: BlockHandle) -> (r: Result<(CodecId, Vec<u8>)>)
    ensures
        match handle_block_spec(payload@, block) {
            Ok((codec, bytes)) => r matches Ok((c, b)) && c == codec && b@ == bytes,
            Err(f) => r matches Err(e) && fault_is(e, f),
        },
{
    let (start, end) = match handle_bounds(block.offset, block.len) {
        Ok(bounds) => bounds,
        Err(e) => return Err(e),
    };
    if end > payload.len() {
        return Err(invalid_table("block outside table payload"));
    }
    read_checked_block_bytes(vstd::slice::slice_subrange(payload, start, end))
}

/// What a one-block section holds, or why it cannot be read.
pub open spec fn single_block_section_spec(payload: Seq<u8>, section: SectionHandle) -> core::result::Result<
    (CodecId, Seq<u8>),
    Fault,
> {
    match bounds_fault(section.offset, section.len) {
        Some(f) => Err(f),
        None => if section.len == 0 {
            Err(table_fault("empty single-block section"@))
        } else {
            handle_block_spec(payload, BlockHandle { offset: section.offset, len: section.len })
        },
    }
}

/// Reads a section that holds one stored block.
pub fn read_single_block_section(payload: &[u8], section: SectionHandle) -> (r: Result<(CodecId, Vec<u8>)>)
    ensures
        match single_block_section_spec(payload@, section) {
            Ok((codec, bytes)) => r matches Ok((c, b)) && c == codec && b@ == bytes,
            Err(f) => r matches Err(e) && fault_is(e, f),
        },
{
    match handle_bounds(section.offset, section.len) {
        Ok(_) => {},
        Err(e) => return Err(e),
    }
    if section.len == 0 {
        return Err(invalid_table("empty single-block section"));
    }
    read_checked_block(payload, BlockHandle { offset: section.offset, len: section.len })
}

// ---------------------------------------------------------------- data block layout

/// Index of the record that ends the block starting at `start`, given the
/// records taken so far up to `end` and their bytes `total`: records are
/// taken while the block stays within `block_bytes`, the first always.
pub open spec fn block_end(lens: Seq<int>, start: int, end: int, total: int, block_bytes: int) -> int
    decreases lens.len() - end,
{
    if end >= lens.len() {
        end
    } else if end > start && total + lens[end] > block_bytes {
        end
    } else {
        block_end(lens, start, end + 1, total + lens[end], block_bytes)
    }
}

/// The record ranges of the data blocks, from record `start` on.
pub open spec fn block_ranges(lens: Seq<int>, start: int, block_bytes: int) -> Seq<(int, int)>
    decreases lens.len() - start,
{
    let e = block_end(lens, start, start, 0, block_bytes);
    if start >= lens.len() || e <= start || e > lens.len() {
        Seq::empty()
    } else {
        seq![(start, e)] + block_ranges(lens, e, block_bytes)
    }
}

/// Each block range lies within the records, after `start`, and is not
/// empty.
pub proof fn lemma_block_ranges_within(lens: Seq<int>, start: int, block_bytes: int)
    requires
        0 <= start,
    ensures
        forall|k: int|
            0 <= k < block_ranges(lens, start, block_bytes).len() ==> start <= (#[trigger] block_ranges(
                lens,
                start,
                block_bytes,
            )[k]).0 < block_ranges(lens, start, block_bytes)[k].1 <= lens.len(),
    decreases lens.len() - start,
{
    let e = block_end(lens, start, start, 0, block_bytes);
    if !(start >= lens.len() || e <= start || e > lens.len()) {
        lemma_block_ranges_within(lens, e, block_bytes);
        let rest = block_ranges(lens, e, block_bytes);
        let all = block_ranges(lens, start, block_bytes);
        assert(all == seq![(start, e)] + rest);
        assert forall|k: int| 0 <= k < all.len() implies start <= (#[trigger] all[k]).0 < all[k].1 <= lens.len() by {
            if k > 0 {
                assert(all[k] == rest[k - 1]);
            }
        }
    }
}

/// The bytes each record takes in a data block.
pub open spec fn record_lens(records: Seq<PointRecordView>) -> Seq<int> {
    records.map_values(|r: PointRecordView| crate::table_block::record_bytes(r).len() as int)
}

/// The bytes a record takes in a data block.
pub fn point_record_encoded_len(record: &TablePointRecord) -> (r: u128)
    ensures
        r == crate::table_block::record_bytes(record@).len(),
        r < 0x4_0000_0000_0000_0000,
{
    let key_len = 4 + (record.internal_key.user_key().len() as u128) + 8 + 1 + 4;
    let value_len: u128 = match &record.value {
        None => 1,
        Some(crate::blob::ValueRef::Inline(bytes)) => 1 + 4 + bytes.len() as u128,
        Some(crate::blob::ValueRef::BlobIndex(_)) => 1 + 8 + 8 + 8 + 8 + 4 + 4 + 1,
        Some(crate::blob::ValueRef::Blob { .. }) => 1 + 8 + 8 + 8 + 4,
    };
    proof {
        lemma_record_len(record@);
    }
    key_len + value_len
}

proof fn lemma_record_len(r: PointRecordView)
    ensures
        crate::table_block::record_bytes(r).len() == 17 + r.key.user_key.len() + match r.value {
            None => 1int,
            Some(crate::blob::ValueRefView::Inline(bytes)) => 5 + bytes.len() as int,
            Some(crate::blob::ValueRefView::BlobIndex(_)) => 42,
            Some(crate::blob::ValueRefView::Blob { .. }) => 29,
        },
{
    crate::wire::lemma_le_lengths(0, r.key.user_key.len() as u32, r.key.sequence);
    crate::wire::lemma_le_lengths(0, r.key.batch_index, 0);
    match r.value {
        Some(crate::blob::ValueRefView::Inline(bytes)) => crate::wire::lemma_le_lengths(0, bytes.len() as u32, 0),
        Some(crate::blob::ValueRefView::BlobIndex(i)) => {
            crate::wire::lemma_le_lengths(0, i.value_checksum, i.file_id);
            crate::wire::lemma_le_lengths(0, i.record_checksum, i.offset);
            crate::wire::lemma_le_lengths(0, 0, i.encoded_len);
            crate::wire::lemma_le_lengths(0, 0, i.value_len);
        },
        Some(crate::blob::ValueRefView::Blob { file_id, offset, len, checksum }) => {
            crate::wire::lemma_le_lengths(0, checksum, file_id);
            crate::wire::lemma_le_lengths(0, 0, offset);
            crate::wire::lemma_le_lengths(0, 0, len);
        },
        None => {},
    }
}

proof fn lemma_block_end_bounds(lens: Seq<int>, start: int, end: int, total: int, block_bytes: int)
    requires
        0 <= start <= end <= lens.len(),
    ensures
        end <= block_end(lens, start, end, total, block_bytes) <= lens.len(),
        start < lens.len() && end == start ==> block_end(lens, start, end, total, block_bytes) > start,
    decreases lens.len() - end,
{
    if end < lens.len() && !(end > start && total + lens[end] > block_bytes) {
        lemma_block_end_bounds(lens, start, end + 1, total + lens[end], block_bytes);
    }
}

/// Splits the records into data blocks: each block takes records while its
/// bytes stay within `block_bytes`, and at least one.
pub fn data_block_ranges(records: &[TablePointRecord], block_bytes: usize) -> (r: Vec<(usize, usize)>)
    ensures
        r@.map_values(|x: (usize, usize)| (x.0 as int, x.1 as int)) == block_ranges(
            record_lens(point_views(records@)),
            0,
            block_bytes as int,
        ),
{
    let ghost lens = record_lens(point_views(records@));
    let mut ranges: Vec<(usize, usize)> = Vec::new();
    let mut start: usize = 0;
    while start < records.len()
        invariant
            lens == record_lens(point_views(records@)),
            start <= records@.len(),
            ranges@.map_values(|x: (usize, usize)| (x.0 as int, x.1 as int)) + block_ranges(lens, start as int, block_bytes as int)
                == block_ranges(lens, 0, block_bytes as int),
        decreases records@.len() - start,
    {
        let mut end: usize = start;
        let mut total: u128 = 0;
        while end < records.len()
            invariant
                lens == record_lens(point_views(records@)),
                start <= end <= records@.len(),
                start < records@.len(),
                end == start ==> total == 0,
                total <= block_bytes || end == start + 1,
                total < 0x4_0000_0000_0000_0000,
                block_end(lens, start as int, start as int, 0, block_bytes as int) == block_end(
                    lens,
                    start as int,
                    end as int,
                    total as int,
                    block_bytes as int,
                ),
            ensures
                block_end(lens, start as int, start as int, 0, block_bytes as int) == end,
                start < end <= records@.len(),
            decreases records@.len() - end,
        {
            let next = point_record_encoded_len(&records[end]);
            proof {
                assert(lens[end as int] == next);
                assert(point_views(records@)[end as int] == records@[end as int]@);
            }
            if end > start && total + next > block_bytes as u128 {
                proof {
                    lemma_block_end_bounds(lens, start as int, start as int, 0, block_bytes as int);
                }
                break;
            }
            total = total + next;
            end = end + 1;
        }
        proof {
            lemma_block_end_bounds(lens, start as int, start as int, 0, block_bytes as int);
        }
        let ghost before = ranges@.map_values(|x: (usize, usize)| (x.0 as int, x.1 as int));
        ranges.push((start, end));
        proof {
            assert(ranges@.map_values(|x: (usize, usize)| (x.0 as int, x.1 as int)) =~= before.push((start as int, end as int)));
            assert(block_ranges(lens, start as int, block_bytes as int) =~= seq![(start as int, end as int)] + block_ranges(
                lens,
                end as int,
                block_bytes as int,
            ));
        }
        start = end;
    }
    proof {
        assert(block_ranges(lens, start as int, block_bytes as int) =~= Seq::<(int, int)>::empty());
    }
    ranges
}

} // verus!
