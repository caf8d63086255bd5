//! Data blocks of a table file. A data block holds a count, the point
//! records one after the other (internal key, then value reference), and
//! the restart points: the byte offsets of every sixteenth record. Reading
//! a block checks each count against the bytes left before reserving room,
//! and turns each restart offset into the index of the record it starts.

use vstd::prelude::*;
use crate::blob::{BlobIndex, ValueRef, ValueRefView};
use crate::blob_format::{codec_of_tag, codec_tag, fault_is, key_bytes, kind_of_tag, kind_tag, put_codec, put_internal_key, Fault};
use crate::codec::CodecId;
use crate::error::{Error, ErrorKind, Result};
use crate::internal_key::{InternalKey, InternalKeyView, ValueKind};
use crate::text::{decimal, push_decimal};
use crate::types::Sequence;
use crate::wire::{le32, le64, len_prefixed, put_bytes, put_u32, put_u64, put_u8, take_at, u32_at, u64_at, u8_at, Cursor};

verus! {

/// Records between two restart points.
pub const DATA_BLOCK_RESTART_INTERVAL: usize = 16;

/// Fewest bytes an internal key takes.
pub const MIN_INTERNAL_KEY_BYTES: usize = 17;

/// Fewest bytes a point record takes: a key and a one-byte value tag.
pub const MIN_DATA_RECORD_BYTES: usize = 18;

/// Bytes of one restart offset.
pub const RESTART_POINT_BYTES: usize = 4;

/// A record of a table: an internal key and, for a put, where its value is.
#[derive(Debug, Clone, PartialEq, Eq)]
pub struct TablePointRecord {
    pub internal_key: InternalKey,
    pub value: Option<ValueRef>,
}

/// The mathematical value of a point record.
pub struct PointRecordView {
    pub key: InternalKeyView,
    pub value: Option<ValueRefView>,
}

pub open spec fn value_view(value: Option<ValueRef>) -> Option<ValueRefView> {
    match value {
        Some(v) => Some(v@),
        None => None,
    }
}

impl View for TablePointRecord {
    type V = PointRecordView;

    open spec fn view(&self) -> PointRecordView {
        PointRecordView { key: self.internal_key@, value: value_view(self.value) }
    }
}

pub open spec fn point_views(records: Seq<TablePointRecord>) -> Seq<PointRecordView> {
    records.map_values(|r: TablePointRecord| r@)
}

// ---------------------------------------------------------------- layout

pub open spec fn blob_index_bytes(index: BlobIndex) -> Seq<u8> {
    le64(index.file_id) + le64(index.offset) + le64(index.encoded_len) + le64(index.value_len) + le32(
        index.value_checksum,
    ) + le32(index.record_checksum) + seq![codec_tag(index.compression)]
}

/// Bytes of a value reference: a tag, then its fields.
pub open spec fn value_bytes(value: Option<ValueRefView>) -> Seq<u8> {
    match value {
        None => seq![0u8],
        Some(ValueRefView::Inline(bytes)) => seq![1u8] + len_prefixed(bytes),
        Some(ValueRefView::Blob { file_id, offset, len, checksum }) => seq![2u8] + le64(file_id) + le64(offset)
            + le64(len) + le32(checksum),
        Some(ValueRefView::BlobIndex(index)) => seq![3u8] + blob_index_bytes(index),
    }
}

pub open spec fn record_bytes(r: PointRecordView) -> Seq<u8> {
    key_bytes(r.key) + value_bytes(r.value)
}

pub open spec fn records_bytes(records: Seq<PointRecordView>) -> Seq<u8>
    decreases records.len(),
{
    if records.len() == 0 {
        Seq::empty()
    } else {
        records_bytes(records.drop_last()) + record_bytes(records.last())
    }
}

/// Byte offset in the block of record `i`: after the count and the records
/// before it.
pub open spec fn record_offset(records: Seq<PointRecordView>, i: int) -> int {
    4 + records_bytes(records.take(i)).len() as int
}

/// Indexes of the records that start a restart run.
pub open spec fn restart_indices_for(n: nat) -> Seq<int> {
    Seq::new(
        ((n + DATA_BLOCK_RESTART_INTERVAL - 1) / DATA_BLOCK_RESTART_INTERVAL as int) as nat,
        |k: int| k * DATA_BLOCK_RESTART_INTERVAL,
    )
}

pub open spec fn u32s_bytes(values: Seq<u32>) -> Seq<u8>
    decreases values.len(),
{
    if values.len() == 0 {
        Seq::empty()
    } else {
        u32s_bytes(values.drop_last()) + le32(values.last())
    }
}

pub open spec fn restart_offsets(records: Seq<PointRecordView>) -> Seq<u32> {
    restart_indices_for(records.len()).map_values(|i: int| record_offset(records, i) as u32)
}

/// The bytes of a data block.
pub open spec fn data_block_bytes(records: Seq<PointRecordView>) -> Seq<u8> {
    let restarts = restart_offsets(records);
    le32(records.len() as u32) + records_bytes(records) + le32(restarts.len() as u32) + u32s_bytes(restarts)
}

pub open spec fn record_fits(r: PointRecordView) -> bool {
    &&& r.key.user_key.len() <= u32::MAX
    &&& match r.value {
        Some(ValueRefView::Inline(bytes)) => bytes.len() <= u32::MAX,
        _ => true,
    }
}

/// The block can be written: the count, every byte field and every restart
/// offset fit their `u32` fields.
pub open spec fn data_block_fits(records: Seq<PointRecordView>) -> bool {
    &&& records.len() <= u32::MAX
    &&& forall|i: int| 0 <= i < records.len() ==> record_fits(#[trigger] records[i])
    &&& forall|k: int|
        0 <= k < restart_indices_for(records.len()).len() ==> record_offset(
            records,
            #[trigger] restart_indices_for(records.len())[k],
        ) <= u32::MAX
}

// ---------------------------------------------------------------- reading

pub type Read<T> = core::result::Result<(T, int), Fault>;

/// A malformed table: `invalid table: ` and the detail.
pub open spec fn table_fault(detail: Seq<char>) -> Fault {
    Fault { kind: ErrorKind::InvalidFormat, message: "invalid table: "@ + detail, exact: true }
}

pub open spec fn numbered_fault(kind: ErrorKind, text: Seq<char>, value: nat) -> Fault {
    Fault { kind, message: text + decimal(value), exact: true }
}

pub open spec fn t_u8(s: Seq<u8>, p: int) -> Read<u8> {
    match u8_at(s, p) {
        Some(x) => Ok(x),
        None => Err(table_fault("short u8"@)),
    }
}

pub open spec fn t_u32(s: Seq<u8>, p: int) -> Read<u32> {
    match u32_at(s, p) {
        Some(x) => Ok(x),
        None => Err(table_fault("short u32"@)),
    }
}

pub open spec fn t_u64(s: Seq<u8>, p: int) -> Read<u64> {
    match u64_at(s, p) {
        Some(x) => Ok(x),
        None => Err(table_fault("short u64"@)),
    }
}

pub open spec fn t_bytes(s: Seq<u8>, p: int) -> Read<Seq<u8>> {
    match t_u32(s, p) {
        Err(f) => Err(f),
        Ok((n, p1)) => match take_at(s, p1, n as int) {
            Some(x) => Ok(x),
            None => Err(table_fault("short bytes"@)),
        },
    }
}

pub open spec fn t_codec(s: Seq<u8>, p: int) -> Read<CodecId> {
    match t_u8(s, p) {
        Err(f) => Err(f),
        Ok((tag, p1)) => match codec_of_tag(tag) {
            Some(c) => Ok((c, p1)),
            None => Err(numbered_fault(ErrorKind::UnsupportedFormat, "unknown table codec "@, tag as nat)),
        },
    }
}

/// An internal key: length-prefixed user key, sequence, kind tag and batch
/// index.
pub open spec fn t_key(s: Seq<u8>, p: int) -> Read<InternalKeyView> {
    match t_bytes(s, p) {
        Err(f) => Err(f),
        Ok((user_key, p1)) => match t_u64(s, p1) {
            Err(f) => Err(f),
            Ok((sequence, p2)) => match t_u8(s, p2) {
                Err(f) => Err(f),
                Ok((tag, p3)) => match kind_of_tag(tag) {
                    None => Err(numbered_fault(ErrorKind::InvalidFormat, "unknown table value kind "@, tag as nat)),
                    Some(kind) => match t_u32(s, p3) {
                        Err(f) => Err(f),
                        Ok((batch_index, p4)) => Ok(
                            (InternalKeyView { user_key, sequence, kind, batch_index }, p4),
                        ),
                    },
                },
            },
        },
    }
}

pub open spec fn t_blob_index(s: Seq<u8>, p: int) -> Read<BlobIndex> {
    match t_u64(s, p) {
        Err(f) => Err(f),
        Ok((file_id, p1)) => match t_u64(s, p1) {
            Err(f) => Err(f),
            Ok((offset, p2)) => match t_u64(s, p2) {
                Err(f) => Err(f),
                Ok((encoded_len, p3)) => match t_u64(s, p3) {
                    Err(f) => Err(f),
                    Ok((value_len, p4)) => match t_u32(s, p4) {
                        Err(f) => Err(f),
                        Ok((value_checksum, p5)) => match t_u32(s, p5) {
                            Err(f) => Err(f),
                            Ok((record_checksum, p6)) => match t_codec(s, p6) {
                                Err(f) => Err(f),
                                Ok((compression, p7)) => Ok(
                                    (
                                        BlobIndex {
                                            file_id,
                                            offset,
                                            encoded_len,
                                            value_len,
                                            value_checksum,
                                            record_checksum,
                                            compression,
                                        },
                                        p7,
                                    ),
                                ),
                            },
                        },
                    },
                },
            },
        },
    }
}

pub open spec fn t_value(s: Seq<u8>, p: int) -> Read<Option<ValueRefView>> {
    match t_u8(s, p) {
        Err(f) => Err(f),
        Ok((tag, p1)) => if tag == 0 {
            Ok((None, p1))
        } else if tag == 1 {
            match t_bytes(s, p1) {
                Err(f) => Err(f),
                Ok((bytes, p2)) => Ok((Some(ValueRefView::Inline(bytes)), p2)),
            }
        } else if tag == 2 {
            match t_u64(s, p1) {
                Err(f) => Err(f),
                Ok((file_id, p2)) => match t_u64(s, p2) {
                    Err(f) => Err(f),
                    Ok((offset, p3)) => match t_u64(s, p3) {
                        Err(f) => Err(f),
                        Ok((len, p4)) => match t_u32(s, p4) {
                            Err(f) => Err(f),
                            Ok((checksum, p5)) => Ok(
                                (Some(ValueRefView::Blob { file_id, offset, len, checksum }), p5),
                            ),
                        },
                    },
                },
            }
        } else if tag == 3 {
            match t_blob_index(s, p1) {
                Err(f) => Err(f),
                Ok((index, p2)) => Ok((Some(ValueRefView::BlobIndex(index)), p2)),
            }
        } else {
            Err(numbered_fault(ErrorKind::InvalidFormat, "unknown table value reference "@, tag as nat))
        },
    }
}

/// `n` records from `p`: the records, the offset of each, and the position
/// after them.
pub open spec fn t_records(s: Seq<u8>, p: int, n: nat) -> core::result::Result<
    (Seq<PointRecordView>, Seq<int>, int),
    Fault,
>
    decreases n,
{
    if n == 0 {
        Ok((Seq::empty(), Seq::empty(), p))
    } else {
        match t_records(s, p, (n - 1) as nat) {
            Err(f) => Err(f),
            Ok((records, offsets, q)) => match t_key(s, q) {
                Err(f) => Err(f),
                Ok((key, q1)) => match t_value(s, q1) {
                    Err(f) => Err(f),
                    Ok((value, q2)) => Ok(
                        (records.push(PointRecordView { key, value }), offsets.push(q), q2),
                    ),
                },
            },
        }
    }
}

/// Index of the first record that starts at `offset`, or -1.
pub open spec fn offset_index(offsets: Seq<int>, offset: int) -> int
    decreases offsets.len(),
{
    if offsets.len() == 0 {
        -1
    } else {
        let i = offset_index(offsets.drop_last(), offset);
        if i >= 0 {
            i
        } else if offsets.last() == offset {
            offsets.len() - 1
        } else {
            -1
        }
    }
}

/// `n` restart offsets from `p`, each checked and turned into a record
/// index: the indices, the offsets as read, and the position after them.
pub open spec fn t_restarts(s: Seq<u8>, p: int, n: nat, offsets: Seq<int>, records_end: int) -> core::result::Result<
    (Seq<int>, Seq<u32>, int),
    Fault,
>
    decreases n,
{
    if n == 0 {
        Ok((Seq::empty(), Seq::empty(), p))
    } else {
        match t_restarts(s, p, (n - 1) as nat, offsets, records_end) {
            Err(f) => Err(f),
            Ok((indices, raw, q)) => match t_u32(s, q) {
                Err(f) => Err(f),
                Ok((restart, q1)) => if restart >= records_end {
                    Err(table_fault("data block restart outside record area"@))
                } else if raw.len() > 0 && restart <= raw.last() {
                    Err(table_fault("data block restart points are not sorted"@))
                } else if offset_index(offsets, restart as int) < 0 {
                    Err(table_fault("data block restart is not a record start"@))
                } else {
                    Ok((indices.push(offset_index(offsets, restart as int)), raw.push(restart), q1))
                },
            },
        }
    }
}

/// What a data block holds: its records and the record index of each
/// restart point; or why it cannot be read.
pub open spec fn data_block_spec(s: Seq<u8>) -> core::result::Result<(Seq<PointRecordView>, Seq<int>), Fault> {
    match t_u32(s, 0) {
        Err(f) => Err(f),
        Ok((count, p1)) => if count > (s.len() - p1) / (MIN_DATA_RECORD_BYTES as int) {
            Err(table_fault("data record count exceeds block bytes"@))
        } else {
            match t_records(s, p1, count as nat) {
                Err(f) => Err(f),
                Ok((records, offsets, p2)) => match t_u32(s, p2) {
                    Err(f) => Err(f),
                    Ok((restart_count, p3)) => if offsets.len() == 0 && restart_count != 0 {
                        Err(table_fault("empty data block has restart points"@))
                    } else if offsets.len() != 0 && restart_count == 0 {
                        Err(table_fault("data block is missing restart points"@))
                    } else if restart_count > (s.len() - p3) / (RESTART_POINT_BYTES as int) {
                        Err(table_fault("data block restart count exceeds block bytes"@))
                    } else {
                        match t_restarts(s, p3, restart_count as nat, offsets, p2) {
                            Err(f) => Err(f),
                            Ok((indices, raw, p4)) => if indices.len() > 0 && indices[0] != 0 {
                                Err(table_fault("data block first restart is not first record"@))
                            } else if p4 != s.len() {
                                Err(table_fault("trailing data block bytes"@))
                            } else {
                                Ok((records, indices))
                            },
                        }
                    },
                },
            }
        },
    }
}

// ---------------------------------------------------------------- writing

fn put_blob_index(out: &mut Vec<u8>, index: BlobIndex)
    ensures
        final(out)@ == old(out)@ + blob_index_bytes(index),
{
    let ghost start = out@;
    put_u64(out, index.file_id);
    put_u64(out, index.offset);
    put_u64(out, index.encoded_len);
    put_u64(out, index.value_len);
    put_u32(out, index.value_checksum);
    put_u32(out, index.record_checksum);
    put_codec(out, index.compression);
    proof {
        assert(out@ =~= start + blob_index_bytes(index));
    }
}

/// Appends an internal key; fails when its user key is longer than
/// `u32::MAX` bytes.
pub fn put_table_key(out: &mut Vec<u8>, key: &InternalKey) -> (r: Result<()>)
    ensures
        r is Ok <==> key@.user_key.len() <= u32::MAX,
        r is Ok ==> final(out)@ == old(out)@ + key_bytes(key@),
        r matches Err(e) ==> e.kind() == ErrorKind::InvalidOptions,
{
    if key.user_key().len() > 0xffff_ffff {
        return Err(Error::invalid_options("table byte field exceeds u32::MAX"));
    }
    put_internal_key(out, key)
}

/// Appends a value reference: its tag, then its fields.
pub fn put_value_ref(out: &mut Vec<u8>, value: &Option<ValueRef>) -> (r: Result<()>)
    ensures
        r is Ok <==> match value_view(*value) {
            Some(ValueRefView::Inline(bytes)) => bytes.len() <= u32::MAX,
            _ => true,
        },
        r is Ok ==> final(out)@ == old(out)@ + value_bytes(value_view(*value)),
        r matches Err(e) ==> e.kind() == ErrorKind::InvalidOptions,
{
    let ghost start = out@;
    match value {
        None => put_u8(out, 0),
        Some(ValueRef::Inline(bytes)) => {
            if bytes.len() > 0xffff_ffff {
                return Err(Error::invalid_options("table byte field exceeds u32::MAX"));
            }
            put_u8(out, 1);
            let put = put_bytes(out, bytes.as_slice(), "table byte field exceeds u32::MAX");
            proof {
                assert(put is Ok);
            }
        },
        Some(ValueRef::BlobIndex(index)) => {
            put_u8(out, 3);
            put_blob_index(out, *index);
        },
        Some(ValueRef::Blob { file_id, offset, len, checksum }) => {
            put_u8(out, 2);
            put_u64(out, *file_id);
            put_u64(out, *offset);
            put_u64(out, *len);
            put_u32(out, *checksum);
        },
    }
    proof {
        assert(out@ =~= start + value_bytes(value_view(*value)));
    }
    Ok(())
}

proof fn lemma_restart_count_step(i: int)
    requires
        0 <= i,
    ensures
        i % 16 == 0 ==> (i + 1 + 15) / 16 == (i + 15) / 16 + 1,
        i % 16 != 0 ==> (i + 1 + 15) / 16 == (i + 15) / 16,
        i % 16 == 0 ==> (i + 15) / 16 * 16 == i,
{
}

/// Encodes a data block: the record count, the records, then the restart
/// offsets of every sixteenth record.
pub fn encode_data_block(records: &[TablePointRecord]) -> (r: Result<Vec<u8>>)
    ensures
        r is Ok <==> data_block_fits(point_views(records@)),
        r matches Ok(bytes) ==> bytes@ == data_block_bytes(point_views(records@)),
        r matches Ok(bytes) ==> data_block_spec(bytes@) == Ok::<(Seq<PointRecordView>, Seq<int>), Fault>(
            (point_views(records@), restart_indices_for(records@.len())),
        ),
        r matches Err(e) ==> e.kind() == ErrorKind::InvalidOptions,
{
    let ghost views = point_views(records@);
    let ghost starts = restart_indices_for(views.len());
    if records.len() > 0xffff_ffff {
        return Err(Error::invalid_options("data block record count exceeds u32::MAX"));
    }
    let mut bytes: Vec<u8> = Vec::new();
    let mut restarts: Vec<u32> = Vec::new();
    put_u32(&mut bytes, records.len() as u32);
    let mut i: usize = 0;
    while i < records.len()
        invariant
            views == point_views(records@),
            starts == restart_indices_for(views.len()),
            records@.len() <= u32::MAX,
            i <= records@.len(),
            bytes@ == le32(records@.len() as u32) + records_bytes(views.take(i as int)),
            restarts@.len() == (i + 15) / 16,
            forall|k: int| 0 <= k < restarts@.len() ==> #[trigger] restarts@[k] == record_offset(views, k * 16),
            forall|k: int| 0 <= k < restarts@.len() ==> record_offset(views, #[trigger] starts[k]) <= u32::MAX,
            forall|j: int| 0 <= j < i ==> record_fits(#[trigger] views[j]),
        decreases records@.len() - i,
    {
        proof {
            crate::wire::lemma_le_lengths(0, records@.len() as u32, 0);
            assert(views.take(i as int) =~= views.take(i as int));
            assert(bytes@.len() == record_offset(views, i as int));
            lemma_restart_count_step(i as int);
        }
        if i % 16 == 0 {
            if bytes.len() > 0xffff_ffff {
                proof {
                    assert(starts[(i / 16) as int] == i);
                }
                return Err(Error::invalid_options("data block restart offset exceeds u32::MAX"));
            }
            restarts.push(bytes.len() as u32);
        }
        let ghost before = bytes@;
        if let Err(e) = put_table_key(&mut bytes, &records[i].internal_key) {
            return Err(e);
        }
        if let Err(e) = put_value_ref(&mut bytes, &records[i].value) {
            return Err(e);
        }
        proof {
            assert(views[i as int] == records@[i as int]@);
            assert(views.take(i + 1).drop_last() =~= views.take(i as int));
            assert(views.take(i + 1).last() == views[i as int]);
            assert(bytes@ =~= le32(records@.len() as u32) + records_bytes(views.take(i + 1)));
        }
        i = i + 1;
    }
    proof {
        assert(views.take(i as int) =~= views);
    }
    let restart_count = restarts.len();
    put_u32(&mut bytes, restart_count as u32);
    let ghost head = bytes@;
    let mut k: usize = 0;
    while k < restarts.len()
        invariant
            k <= restarts@.len(),
            bytes@ == head + u32s_bytes(restarts@.take(k as int)),
        decreases restarts@.len() - k,
    {
        proof {
            assert(restarts@.take(k + 1).drop_last() =~= restarts@.take(k as int));
        }
        put_u32(&mut bytes, restarts[k]);
        k = k + 1;
    }
    proof {
        assert(restarts@.take(k as int) =~= restarts@);
        assert(restarts@ =~= restart_offsets(views));
        assert(bytes@ =~= data_block_bytes(views));
        crate::table_block_round_trip::lemma_data_block_round_trip(views);
    }
    Ok(bytes)
}

// ---------------------------------------------------------------- decoding

/// `r` is what reading a field gives: on success its value, the cursor at
/// `end`; on failure the error of the fault.
pub open spec fn reads_as<T>(q: Read<T>, r: Result<T>, end: int) -> bool {
    match q {
        Ok((v, p)) => r == Ok::<T, Error>(v) && end == p,
        Err(f) => r matches Err(e) && fault_is(e, f),
    }
}

/// Error for a malformed table: `invalid table: ` and the detail.
pub fn invalid_table(detail: &str) -> (r: Error)
    ensures
        fault_is(r, table_fault(detail@)),
{
    let mut message = String::from_str("invalid table: ");
    message.append(detail);
    Error::InvalidFormat { message }
}

fn numbered_error(kind: ErrorKind, text: &str, value: u64) -> (r: Error)
    requires
        kind != ErrorKind::ReadOnly,
    ensures
        fault_is(r, numbered_fault(kind, text@, value as nat)),
{
    let mut message = String::from_str(text);
    push_decimal(&mut message, value);
    match kind {
        ErrorKind::InvalidFormat => Error::InvalidFormat { message },
        ErrorKind::UnsupportedFormat => Error::UnsupportedFormat { message },
        ErrorKind::Corruption => Error::Corruption { message },
        ErrorKind::InvalidOptions => Error::InvalidOptions { message },
        ErrorKind::ReadOnly => Error::ReadOnly,
    }
}

pub fn table_u8(c: &mut Cursor) -> (r: Result<u8>)
    requires
        old(c).valid(),
    ensures
        final(c).valid(),
        final(c).data() == old(c).data(),
        reads_as(t_u8(old(c).data(), old(c).pos()), r, final(c).pos()),
{
    match c.read_u8() {
        Some(v) => Ok(v),
        None => Err(invalid_table("short u8")),
    }
}

pub fn table_u32(c: &mut Cursor) -> (r: Result<u32>)
    requires
        old(c).valid(),
    ensures
        final(c).valid(),
        final(c).data() == old(c).data(),
        reads_as(t_u32(old(c).data(), old(c).pos()), r, final(c).pos()),
{
    match c.read_u32() {
        Some(v) => Ok(v),
        None => Err(invalid_table("short u32")),
    }
}

pub fn table_u64(c: &mut Cursor) -> (r: Result<u64>)
    requires
        old(c).valid(),
    ensures
        final(c).valid(),
        final(c).data() == old(c).data(),
        reads_as(t_u64(old(c).data(), old(c).pos()), r, final(c).pos()),
{
    match c.read_u64() {
        Some(v) => Ok(v),
        None => Err(invalid_table("short u64")),
    }
}

pub fn table_bytes(c: &mut Cursor) -> (r: Result<Vec<u8>>)
    requires
        old(c).valid(),
    ensures
        final(c).valid(),
        final(c).data() == old(c).data(),
        match t_bytes(old(c).data(), old(c).pos()) {
            Ok((v, p)) => r matches Ok(bytes) && bytes@ == v && final(c).pos() == p,
            Err(f) => r matches Err(e) && fault_is(e, f),
        },
{
    let len = match table_u32(c) {
        Ok(len) => len,
        Err(e) => return Err(e),
    };
    match c.read_exact(len as usize) {
        Some(bytes) => Ok(crate::bytes::to_vec(bytes)),
        None => Err(invalid_table("short bytes")),
    }
}

pub fn table_codec(c: &mut Cursor) -> (r: Result<CodecId>)
    requires
        old(c).valid(),
    ensures
        final(c).valid(),
        final(c).data() == old(c).data(),
        reads_as(t_codec(old(c).data(), old(c).pos()), r, final(c).pos()),
{
    match table_u8(c) {
        Err(e) => Err(e),
        Ok(0) => Ok(CodecId::Uncompressed),
        Ok(1) => Ok(CodecId::FastLz4Block),
        Ok(tag) => Err(numbered_error(ErrorKind::UnsupportedFormat, "unknown table codec ", tag as u64)),
    }
}

pub fn table_key(c: &mut Cursor) -> (r: Result<InternalKey>)
    requires
        old(c).valid(),
    ensures
        final(c).valid(),
        final(c).data() == old(c).data(),
        match t_key(old(c).data(), old(c).pos()) {
            Ok((v, p)) => r matches Ok(key) && key@ == v && final(c).pos() == p,
            Err(f) => r matches Err(e) && fault_is(e, f),
        },
{
    let user_key = match table_bytes(c) {
        Ok(v) => v,
        Err(e) => return Err(e),
    };
    let sequence = match table_u64(c) {
        Ok(v) => v,
        Err(e) => return Err(e),
    };
    let kind = match table_u8(c) {
        Err(e) => return Err(e),
        Ok(1) => ValueKind::Put,
        Ok(2) => ValueKind::PointDelete,
        Ok(3) => ValueKind::RangeDelete,
        Ok(tag) => return Err(numbered_error(ErrorKind::InvalidFormat, "unknown table value kind ", tag as u64)),
    };
    let batch_index = match table_u32(c) {
        Ok(v) => v,
        Err(e) => return Err(e),
    };
    Ok(InternalKey::new(user_key, Sequence::new(sequence), kind, batch_index))
}

fn table_blob_index(c: &mut Cursor) -> (r: Result<BlobIndex>)
    requires
        old(c).valid(),
    ensures
        final(c).valid(),
        final(c).data() == old(c).data(),
        reads_as(t_blob_index(old(c).data(), old(c).pos()), r, final(c).pos()),
{
    let file_id = match table_u64(c) {
        Ok(v) => v,
        Err(e) => return Err(e),
    };
    let offset = match table_u64(c) {
        Ok(v) => v,
        Err(e) => return Err(e),
    };
    let encoded_len = match table_u64(c) {
        Ok(v) => v,
        Err(e) => return Err(e),
    };
    let value_len = match table_u64(c) {
        Ok(v) => v,
        Err(e) => return Err(e),
    };
    let value_checksum = match table_u32(c) {
        Ok(v) => v,
        Err(e) => return Err(e),
    };
    let record_checksum = match table_u32(c) {
        Ok(v) => v,
        Err(e) => return Err(e),
    };
    let compression = match table_codec(c) {
        Ok(v) => v,
        Err(e) => return Err(e),
    };
    Ok(BlobIndex { file_id, offset, encoded_len, value_len, value_checksum, record_checksum, compression })
}

pub fn table_value_ref(c: &mut Cursor) -> (r: Result<Option<ValueRef>>)
    requires
        old(c).valid(),
    ensures
        final(c).valid(),
        final(c).data() == old(c).data(),
        match t_value(old(c).data(), old(c).pos()) {
            Ok((v, p)) => r matches Ok(value) && value_view(value) == v && final(c).pos() == p,
            Err(f) => r matches Err(e) && fault_is(e, f),
        },
{
    match table_u8(c) {
        Err(e) => Err(e),
        Ok(0) => Ok(None),
        Ok(1) => match table_bytes(c) {
            Err(e) => Err(e),
            Ok(bytes) => Ok(Some(ValueRef::Inline(bytes))),
        },
        Ok(2) => {
            let file_id = match table_u64(c) {
                Ok(v) => v,
                Err(e) => return Err(e),
            };
            let offset = match table_u64(c) {
                Ok(v) => v,
                Err(e) => return Err(e),
            };
            let len = match table_u64(c) {
                Ok(v) => v,
                Err(e) => return Err(e),
            };
            let checksum = match table_u32(c) {
                Ok(v) => v,
                Err(e) => return Err(e),
            };
            Ok(Some(ValueRef::Blob { file_id, offset, len, checksum }))
        },
        Ok(3) => match table_blob_index(c) {
            Err(e) => Err(e),
            Ok(index) => Ok(Some(ValueRef::BlobIndex(index))),
        },
        Ok(tag) => Err(numbered_error(ErrorKind::InvalidFormat, "unknown table value reference ", tag as u64)),
    }
}

proof fn lemma_records_err(s: Seq<u8>, p: int, k: nat, n: nat)
    requires
        k <= n,
        t_records(s, p, k) is Err,
    ensures
        t_records(s, p, n) == t_records(s, p, k),
    decreases n - k,
{
    if k < n {
        lemma_records_err(s, p, k, (n - 1) as nat);
    }
}

proof fn lemma_restarts_err(s: Seq<u8>, p: int, k: nat, n: nat, offsets: Seq<int>, records_end: int)
    requires
        k <= n,
        t_restarts(s, p, k, offsets, records_end) is Err,
    ensures
        t_restarts(s, p, n, offsets, records_end) == t_restarts(s, p, k, offsets, records_end),
    decreases n - k,
{
    if k < n {
        lemma_restarts_err(s, p, k, (n - 1) as nat, offsets, records_end);
    }
}

proof fn lemma_offset_index_prefix(offsets: Seq<int>, target: int, k: int)
    requires
        0 <= k <= offsets.len(),
        offset_index(offsets.take(k), target) >= 0,
    ensures
        offset_index(offsets, target) == offset_index(offsets.take(k), target),
    decreases offsets.len() - k,
{
    if k < offsets.len() {
        assert(offsets.take(k + 1).drop_last() =~= offsets.take(k));
        lemma_offset_index_prefix(offsets, target, k + 1);
    } else {
        assert(offsets.take(k) =~= offsets);
    }
}

pub open spec fn usize_ints(values: Seq<usize>) -> Seq<int> {
    values.map_values(|v: usize| v as int)
}

/// Index of the first record that starts at `target`.
fn find_offset(offsets: &Vec<usize>, target: usize) -> (r: Option<usize>)
    ensures
        match r {
            Some(i) => offset_index(usize_ints(offsets@), target as int) == i,
            None => offset_index(usize_ints(offsets@), target as int) < 0,
        },
{
    let ghost all = usize_ints(offsets@);
    let mut i: usize = 0;
    while i < offsets.len()
        invariant
            all == usize_ints(offsets@),
            i <= offsets@.len(),
            offset_index(all.take(i as int), target as int) < 0,
        decreases offsets@.len() - i,
    {
        proof {
            assert(all.take(i + 1).drop_last() =~= all.take(i as int));
        }
        if offsets[i] == target {
            proof {
                lemma_offset_index_prefix(all, target as int, i + 1);
            }
            return Some(i);
        }
        i = i + 1;
    }
    proof {
        assert(all.take(i as int) =~= all);
    }
    None
}

/// A data block as read: its records and the record index of each restart
/// point.
#[derive(Debug)]
pub struct DecodedDataBlock {
    records: Vec<TablePointRecord>,
    restart_indices: Vec<usize>,
}

impl DecodedDataBlock {
    pub closed spec fn spec_records(&self) -> Seq<PointRecordView> {
        point_views(self.records@)
    }

    pub closed spec fn spec_restart_indices(&self) -> Seq<int> {
        usize_ints(self.restart_indices@)
    }

    pub fn new(records: Vec<TablePointRecord>, restart_indices: Vec<usize>) -> (r: Self)
        ensures
            r.spec_records() == point_views(records@),
            r.spec_restart_indices() == usize_ints(restart_indices@),
    {
        DecodedDataBlock { records, restart_indices }
    }

    pub fn records(&self) -> (r: &[TablePointRecord])
        ensures
            point_views(r@) == self.spec_records(),
    {
        self.records.as_slice()
    }

    pub fn restart_indices(&self) -> (r: &[usize])
        ensures
            usize_ints(r@) == self.spec_restart_indices(),
    {
        self.restart_indices.as_slice()
    }
}

/// Reads a data block. The record count is checked against the bytes left
/// before any record is read, and so is the restart count; each restart
/// offset must lie in the record area, grow, and start a record, and the
/// first must start the first record.
pub fn decode_data_block(bytes: &[u8]) -> (r: Result<DecodedDataBlock>)
    ensures
        match data_block_spec(bytes@) {
            Ok((records, indices)) => r matches Ok(block) && block.spec_records() == records
                && block.spec_restart_indices() == indices,
            Err(f) => r matches Err(e) && fault_is(e, f),
        },
{
    let ghost s = bytes@;
    let mut c = Cursor::new(bytes);
    let count = match table_u32(&mut c) {
        Ok(v) => v,
        Err(e) => return Err(e),
    };
    if count as usize > c.remaining_len() / MIN_DATA_RECORD_BYTES {
        return Err(invalid_table("data record count exceeds block bytes"));
    }
    let mut records: Vec<TablePointRecord> = Vec::new();
    let mut offsets: Vec<usize> = Vec::new();
    let mut i: u32 = 0;
    proof {
        assert(point_views(records@) =~= Seq::<PointRecordView>::empty());
        assert(usize_ints(offsets@) =~= Seq::<int>::empty());
    }
    while i < count
        invariant
            c.valid(),
            c.data() == s,
            s == bytes@,
            t_u32(s, 0) == Ok::<(u32, int), Fault>((count, 4)),
            count <= (s.len() - 4) / (MIN_DATA_RECORD_BYTES as int),
            i <= count,
            t_records(s, 4, i as nat) matches Ok((rs, offs, q)) && c.pos() == q && point_views(records@) == rs
                && usize_ints(offsets@) == offs,
        decreases count - i,
    {
        let ghost before_records = records@;
        let ghost before_offsets = offsets@;
        offsets.push(c.offset());
        let key = match table_key(&mut c) {
            Ok(k) => k,
            Err(e) => {
                proof {
                    lemma_records_err(s, 4, (i + 1) as nat, count as nat);
                }
                return Err(e);
            },
        };
        let value = match table_value_ref(&mut c) {
            Ok(v) => v,
            Err(e) => {
                proof {
                    lemma_records_err(s, 4, (i + 1) as nat, count as nat);
                }
                return Err(e);
            },
        };
        let record = TablePointRecord { internal_key: key, value };
        records.push(record);
        proof {
            assert(point_views(records@) =~= point_views(before_records).push(record@));
            assert(usize_ints(offsets@) =~= usize_ints(before_offsets).push(offsets@.last() as int));
        }
        i = i + 1;
    }
    let records_end = c.offset();
    let restart_count = match table_u32(&mut c) {
        Ok(v) => v,
        Err(e) => return Err(e),
    };
    if offsets.len() == 0 && restart_count != 0 {
        return Err(invalid_table("empty data block has restart points"));
    }
    if offsets.len() != 0 && restart_count == 0 {
        return Err(invalid_table("data block is missing restart points"));
    }
    if restart_count as usize > c.remaining_len() / RESTART_POINT_BYTES {
        return Err(invalid_table("data block restart count exceeds block bytes"));
    }
    let ghost p3 = c.pos();
    let ghost offs = usize_ints(offsets@);
    let mut indices: Vec<usize> = Vec::new();
    let mut previous: u32 = 0;
    let mut k: u32 = 0;
    proof {
        assert(usize_ints(indices@) =~= Seq::<int>::empty());
    }
    while k < restart_count
        invariant
            c.valid(),
            c.data() == s,
            s == bytes@,
            t_u32(s, 0) == Ok::<(u32, int), Fault>((count, 4)),
            count <= (s.len() - 4) / (MIN_DATA_RECORD_BYTES as int),
            t_u32(s, records_end as int) == Ok::<(u32, int), Fault>((restart_count, p3)),
            offs.len() == 0 ==> restart_count == 0,
            offs.len() != 0 ==> restart_count != 0,
            restart_count <= (s.len() - p3) / (RESTART_POINT_BYTES as int),
            offs == t_records(s, 4, count as nat)->Ok_0.1,
            k <= restart_count,
            offs == usize_ints(offsets@),
            records_end as int == t_records(s, 4, count as nat)->Ok_0.2,
            t_records(s, 4, count as nat) is Ok,
            t_restarts(s, p3, k as nat, offs, records_end as int) matches Ok((idxs, raw, q)) && c.pos() == q
                && usize_ints(indices@) == idxs && raw.len() == k && (k > 0 ==> previous == raw.last()),
        decreases restart_count - k,
    {
        let restart = match table_u32(&mut c) {
            Ok(v) => v,
            Err(e) => {
                proof {
                    lemma_restarts_err(s, p3, (k + 1) as nat, restart_count as nat, offs, records_end as int);
                }
                return Err(e);
            },
        };
        if restart as usize >= records_end {
            proof {
                lemma_restarts_err(s, p3, (k + 1) as nat, restart_count as nat, offs, records_end as int);
            }
            return Err(invalid_table("data block restart outside record area"));
        }
        if k > 0 && restart <= previous {
            proof {
                lemma_restarts_err(s, p3, (k + 1) as nat, restart_count as nat, offs, records_end as int);
            }
            return Err(invalid_table("data block restart points are not sorted"));
        }
        let index = match find_offset(&offsets, restart as usize) {
            Some(index) => index,
            None => {
                proof {
                    lemma_restarts_err(s, p3, (k + 1) as nat, restart_count as nat, offs, records_end as int);
                }
                return Err(invalid_table("data block restart is not a record start"));
            },
        };
        let ghost before = indices@;
        indices.push(index);
        proof {
            assert(usize_ints(indices@) =~= usize_ints(before).push(index as int));
        }
        previous = restart;
        k = k + 1;
    }
    if indices.len() > 0 && indices[0] != 0 {
        return Err(invalid_table("data block first restart is not first record"));
    }
    if !c.is_finished() {
        return Err(invalid_table("trailing data block bytes"));
    }
    Ok(DecodedDataBlock::new(records, indices))
}

// ---------------------------------------------------------------- point lookups

/// Index of the last record whose user key is `key`, or -1.
pub open spec fn last_with_key(records: Seq<PointRecordView>, key: Seq<u8>) -> int
    decreases records.len(),
{
    if records.len() == 0 {
        -1
    } else if records.last().key.user_key == key {
        records.len() - 1
    } else {
        last_with_key(records.drop_last(), key)
    }
}

/// Start of the run of consecutive records with user key `key` that
/// reaches record `j`.
pub open spec fn run_start(records: Seq<PointRecordView>, key: Seq<u8>, j: int) -> int
    decreases j,
{
    if j > 0 && records[j - 1].key.user_key == key {
        run_start(records, key, j - 1)
    } else {
        j
    }
}

/// The records a point lookup for `key` gives, as a range of indices: the
/// last run of consecutive records with that user key (the block's point
/// index keeps one run per key, the last one it meets).
pub open spec fn point_run(records: Seq<PointRecordView>, key: Seq<u8>) -> Option<(int, int)> {
    let j = last_with_key(records, key);
    if j < 0 {
        None
    } else {
        Some((run_start(records, key, j), j + 1))
    }
}

/// The records of the run for `key`, in block order.
pub open spec fn point_records_spec(records: Seq<PointRecordView>, key: Seq<u8>) -> Seq<PointRecordView> {
    match point_run(records, key) {
        Some((a, b)) => records.subrange(a, b),
        None => Seq::empty(),
    }
}

/// Index of the first record in `[a, b)` whose sequence is at most `read`,
/// or -1.
pub open spec fn first_visible(records: Seq<PointRecordView>, a: int, b: int, read: u64) -> int
    decreases b - a,
{
    if a >= b {
        -1
    } else if records[a].key.sequence <= read {
        a
    } else {
        first_visible(records, a + 1, b, read)
    }
}

proof fn lemma_last_with_key_suffix(records: Seq<PointRecordView>, key: Seq<u8>, j: int)
    requires
        0 <= j <= records.len(),
        forall|t: int| j <= t < records.len() ==> (#[trigger] records[t]).key.user_key != key,
    ensures
        last_with_key(records, key) == last_with_key(records.take(j), key),
    decreases records.len() - j,
{
    if j < records.len() {
        let dl = records.drop_last();
        assert forall|t: int| j <= t < dl.len() implies (#[trigger] dl[t]).key.user_key != key by {
            assert(dl[t] == records[t]);
        }
        lemma_last_with_key_suffix(dl, key, j);
        assert(dl.take(j) =~= records.take(j));
    } else {
        assert(records.take(j) =~= records);
    }
}

proof fn lemma_last_with_key_range(records: Seq<PointRecordView>, key: Seq<u8>)
    ensures
        -1 <= last_with_key(records, key) < records.len(),
        last_with_key(records, key) >= 0 ==> records[last_with_key(records, key)].key.user_key == key,
    decreases records.len(),
{
    if records.len() > 0 && records.last().key.user_key != key {
        lemma_last_with_key_range(records.drop_last(), key);
    }
}

proof fn lemma_run_start_range(records: Seq<PointRecordView>, key: Seq<u8>, j: int)
    requires
        0 <= j < records.len(),
    ensures
        0 <= run_start(records, key, j) <= j,
    decreases j,
{
    if j > 0 && records[j - 1].key.user_key == key {
        lemma_run_start_range(records, key, j - 1);
    }
}

/// Copies records with the same views.
fn copy_records(records: &[TablePointRecord], a: usize, b: usize) -> (r: Vec<TablePointRecord>)
    requires
        a <= b <= records@.len(),
    ensures
        point_views(r@) == point_views(records@).subrange(a as int, b as int),
{
    let mut out: Vec<TablePointRecord> = Vec::new();
    let mut i: usize = a;
    while i < b
        invariant
            a <= i <= b,
            b <= records@.len(),
            out@.len() == i - a,
            point_views(out@) == point_views(records@).subrange(a as int, i as int),
        decreases b - i,
    {
        let ghost before = out@;
        let record = TablePointRecord {
            internal_key: records[i].internal_key.duplicate(),
            value: match &records[i].value {
                Some(v) => Some(crate::blob::duplicate_value_ref(v)),
                None => None,
            },
        };
        out.push(record);
        proof {
            assert(record@ == records@[i as int]@);
            assert forall|t: int| 0 <= t < out@.len() implies #[trigger] point_views(out@)[t] == point_views(
                records@,
            ).subrange(a as int, i + 1)[t] by {
                if t < out@.len() - 1 {
                    assert(out@[t] == before[t]);
                    assert(point_views(before)[t] == point_views(records@).subrange(a as int, i as int)[t]);
                }
            }
            assert(point_views(out@) =~= point_views(records@).subrange(a as int, i + 1));
        }
        i = i + 1;
    }
    out
}

impl DecodedDataBlock {
    /// The range of records the point index gives for `key`.
    pub fn point_lookup_range(&self, key: &[u8]) -> (r: Option<(usize, usize)>)
        ensures
            match point_run(self.spec_records(), key@) {
                Some((a, b)) => r matches Some((x, y)) && x == a && y == b,
                None => r is None,
            },
    {
        let ghost rs = self.spec_records();
        let mut j: usize = self.records.len();
        proof {
            assert(rs.take(j as int) =~= rs);
        }
        while j > 0 && !crate::bytes::bytes_equal(self.records[j - 1].internal_key.user_key(), key)
            invariant
                rs == point_views(self.records@),
                j <= rs.len(),
                last_with_key(rs, key@) == last_with_key(rs.take(j as int), key@),
            decreases j,
        {
            proof {
                assert(rs[j - 1] == self.records@[j - 1]@);
                assert(rs.take(j as int).drop_last() =~= rs.take(j - 1));
            }
            j = j - 1;
        }
        if j == 0 {
            proof {
                assert(rs.take(0).len() == 0);
            }
            return None;
        }
        proof {
            assert(rs[j - 1] == self.records@[j - 1]@);
        }
        let last = j - 1;
        proof {
            assert(rs.take(j as int).last() == rs[last as int]);
            assert(last_with_key(rs, key@) == last);
        }
        let mut a: usize = last;
        while a > 0 && crate::bytes::bytes_equal(self.records[a - 1].internal_key.user_key(), key)
            invariant
                rs == point_views(self.records@),
                a <= last < rs.len(),
                run_start(rs, key@, last as int) == run_start(rs, key@, a as int),
            decreases a,
        {
            proof {
                assert(rs[a - 1] == self.records@[a - 1]@);
            }
            a = a - 1;
        }
        proof {
            if a > 0 {
                assert(rs[a - 1] == self.records@[a - 1]@);
            }
        }
        Some((a, j))
    }
}

/// The records of the block with user key `key` that the point index
/// finds, newest first.
pub fn data_block_point_records_for_key(
    block: &DecodedDataBlock,
    key: &[u8],
    policy: crate::options::IndexSearchPolicy,
) -> (r: Vec<TablePointRecord>)
    ensures
        point_views(r@) == point_records_spec(block.spec_records(), key@),
{
    match block.point_lookup_range(key) {
        Some((a, b)) => {
            proof {
                let rs = block.spec_records();
                lemma_last_with_key_range(rs, key@);
                lemma_run_start_range(rs, key@, last_with_key(rs, key@));
            }
            copy_records(block.records.as_slice(), a, b)
        },
        None => {
            let out: Vec<TablePointRecord> = Vec::new();
            proof {
                assert(point_views(out@) =~= Seq::<PointRecordView>::empty());
            }
            out
        },
    }
}

/// The block has a record with user key `key`.
pub fn data_block_has_point_key(
    block: &DecodedDataBlock,
    key: &[u8],
    policy: crate::options::IndexSearchPolicy,
) -> (r: bool)
    ensures
        r == (point_run(block.spec_records(), key@) is Some),
{
    block.point_lookup_range(key).is_some()
}

/// The records are in internal-key order.
pub open spec fn records_sorted(rs: Seq<PointRecordView>) -> bool {
    forall|i: int, j: int| 0 <= i < j < rs.len() ==> crate::internal_key::key_le((#[trigger] rs[i]).key, (#[trigger] rs[j]).key)
}

proof fn lemma_first_visible(rs: Seq<PointRecordView>, a: int, b: int, read: u64)
    requires
        0 <= a <= b <= rs.len(),
    ensures
        first_visible(rs, a, b, read) == -1 ==> forall|j: int| a <= j < b ==> (#[trigger] rs[j]).key.sequence > read,
        first_visible(rs, a, b, read) != -1 ==> {
            let i = first_visible(rs, a, b, read);
            &&& a <= i < b
            &&& rs[i].key.sequence <= read
            &&& forall|j: int| a <= j < i ==> (#[trigger] rs[j]).key.sequence > read
        },
    decreases b - a,
{
    if a < b && rs[a].key.sequence > read {
        lemma_first_visible(rs, a + 1, b, read);
    }
}

proof fn lemma_run_start_keys(rs: Seq<PointRecordView>, key: Seq<u8>, j: int)
    requires
        0 <= j < rs.len(),
        rs[j].key.user_key == key,
    ensures
        0 <= run_start(rs, key, j) <= j,
        forall|t: int| run_start(rs, key, j) <= t <= j ==> (#[trigger] rs[t]).key.user_key == key,
        run_start(rs, key, j) > 0 ==> rs[run_start(rs, key, j) - 1].key.user_key != key,
    decreases j,
{
    if j > 0 && rs[j - 1].key.user_key == key {
        lemma_run_start_keys(rs, key, j - 1);
    }
}

proof fn lemma_last_with_key_last(rs: Seq<PointRecordView>, key: Seq<u8>)
    ensures
        forall|t: int| last_with_key(rs, key) < t < rs.len() ==> (#[trigger] rs[t]).key.user_key != key,
    decreases rs.len(),
{
    lemma_last_with_key_range(rs, key);
    if rs.len() > 0 && rs.last().key.user_key != key {
        lemma_last_with_key_last(rs.drop_last(), key);
        assert forall|t: int| last_with_key(rs, key) < t < rs.len() implies (#[trigger] rs[t]).key.user_key != key by {
            if t < rs.len() - 1 {
                assert(rs.drop_last()[t] == rs[t]);
            }
        }
    }
}

/// The run a point lookup uses holds records of the key only; in a block in
/// internal-key order it holds every record of the key.
proof fn lemma_point_run(rs: Seq<PointRecordView>, key: Seq<u8>)
    ensures
        point_run(rs, key) matches Some((a, b)) ==> 0 <= a < b <= rs.len() && forall|t: int|
            a <= t < b ==> (#[trigger] rs[t]).key.user_key == key,
        records_sorted(rs) ==> forall|t: int|
            0 <= t < rs.len() && (#[trigger] rs[t]).key.user_key == key ==> (point_run(rs, key) matches Some((a, b))
                && a <= t < b),
{
    lemma_last_with_key_range(rs, key);
    lemma_last_with_key_last(rs, key);
    let last = last_with_key(rs, key);
    if last >= 0 {
        lemma_run_start_keys(rs, key, last);
    }
    if records_sorted(rs) {
        assert forall|t: int| 0 <= t < rs.len() && (#[trigger] rs[t]).key.user_key == key implies (point_run(rs, key) matches Some((a, b))
            && a <= t < b) by {
            assert(last >= t);
            let a = run_start(rs, key, last);
            if t < a {
                crate::lsm::compact::lemma_same_user_key_between(rs[t].key, rs[a - 1].key, rs[last].key);
            }
        }
    }
}

/// In a block in internal-key order, the records of one user key come
/// newest first.
proof fn lemma_sorted_same_key_newer_first(rs: Seq<PointRecordView>, i: int, j: int)
    requires
        records_sorted(rs),
        0 <= i < j < rs.len(),
        rs[i].key.user_key == rs[j].key.user_key,
    ensures
        rs[i].key.sequence >= rs[j].key.sequence,
{
    crate::bytes::lemma_bytes_order_properties(rs[i].key.user_key, rs[j].key.user_key);
    assert(crate::internal_key::key_le(rs[i].key, rs[j].key));
}

/// A point read in a data block gives a record of the key that the read can
/// see, with no record of the key the read can see before it in the key's
/// run; nothing only when the read sees no record of the run. When the
/// block is in internal-key order (as a written block is), the record is the
/// newest of all the block's records of the key that the read sees, and
/// nothing means the read sees none of them.
#[verifier::rlimit(60)]
pub proof fn lemma_point_read_gives_newest_visible(rs: Seq<PointRecordView>, key: Seq<u8>, read: u64, r: Option<PointRecordView>)
    requires
        match point_run(rs, key) {
            Some((a, b)) => {
                let i = first_visible(rs, a, b, read);
                if i < 0 {
                    r is None
                } else {
                    r == Some(rs[i])
                }
            },
            None => r is None,
        },
    ensures
        r matches Some(v) ==> v.key.user_key == key && v.key.sequence <= read && exists|i: int|
            0 <= i < rs.len() && rs[i] == v && (point_run(rs, key) matches Some((a, b)) && a <= i < b && forall|j: int|
                a <= j < i ==> (#[trigger] rs[j]).key.sequence > read),
        r is None ==> (point_run(rs, key) matches Some((a, b)) ==> forall|j: int|
            a <= j < b ==> (#[trigger] rs[j]).key.sequence > read),
        records_sorted(rs) ==> (r matches Some(v) ==> forall|j: int|
            0 <= j < rs.len() && (#[trigger] rs[j]).key.user_key == key && rs[j].key.sequence <= read
                ==> rs[j].key.sequence <= v.key.sequence),
        records_sorted(rs) ==> (r is None ==> forall|j: int|
            0 <= j < rs.len() && (#[trigger] rs[j]).key.user_key == key ==> rs[j].key.sequence > read),
{
    lemma_point_run(rs, key);
    match point_run(rs, key) {
        Some((a, b)) => {
            lemma_first_visible(rs, a, b, read);
            let i = first_visible(rs, a, b, read);
            if i >= 0 {
                assert(rs[i].key.user_key == key);
                if records_sorted(rs) {
                    assert forall|j: int|
                        0 <= j < rs.len() && (#[trigger] rs[j]).key.user_key == key && rs[j].key.sequence <= read
                            implies rs[j].key.sequence <= rs[i].key.sequence by {
                        if j > i {
                            lemma_sorted_same_key_newer_first(rs, i, j);
                        }
                    }
                }
            }
        },
        None => {},
    }
}

/// The newest record with user key `key` that a read at `read_sequence`
/// sees: the first record of the key's run whose sequence is at most
/// `read_sequence`.
pub fn data_block_newest_visible_point_record_for_key(
    block: &DecodedDataBlock,
    key: &[u8],
    read_sequence: Sequence,
    policy: crate::options::IndexSearchPolicy,
) -> (r: Option<TablePointRecord>)
    ensures
        match point_run(block.spec_records(), key@) {
            Some((a, b)) => {
                let i = first_visible(block.spec_records(), a, b, read_sequence.spec_get());
                if i < 0 {
                    r is None
                } else {
                    r matches Some(record) && record@ == block.spec_records()[i]
                }
            },
            None => r is None,
        },
        r matches Some(record) ==> record@.key.user_key == key@ && record@.key.sequence <= read_sequence.spec_get(),
        records_sorted(block.spec_records()) ==> (r matches Some(record) ==> forall|j: int|
            0 <= j < block.spec_records().len() && (#[trigger] block.spec_records()[j]).key.user_key == key@
                && block.spec_records()[j].key.sequence <= read_sequence.spec_get() ==> block.spec_records()[j].key.sequence
                <= record@.key.sequence),
        records_sorted(block.spec_records()) ==> (r is None ==> forall|j: int|
            0 <= j < block.spec_records().len() && (#[trigger] block.spec_records()[j]).key.user_key == key@
                ==> block.spec_records()[j].key.sequence > read_sequence.spec_get()),
{
    let ghost rs = block.spec_records();
    let r = data_block_first_visible_record(block, key, read_sequence);
    proof {
        let rv = match r {
            Some(ref record) => Some(record@),
            None => None,
        };
        lemma_point_read_gives_newest_visible(rs, key@, read_sequence.spec_get(), rv);
    }
    r
}

fn data_block_first_visible_record(block: &DecodedDataBlock, key: &[u8], read_sequence: Sequence) -> (r: Option<TablePointRecord>)
    ensures
        match point_run(block.spec_records(), key@) {
            Some((a, b)) => {
                let i = first_visible(block.spec_records(), a, b, read_sequence.spec_get());
                if i < 0 {
                    r is None
                } else {
                    r matches Some(record) && record@ == block.spec_records()[i]
                }
            },
            None => r is None,
        },
{
    let ghost rs = block.spec_records();
    match block.point_lookup_range(key) {
        None => None,
        Some((a, b)) => {
            proof {
                lemma_last_with_key_range(rs, key@);
                lemma_run_start_range(rs, key@, last_with_key(rs, key@));
            }
            let mut i: usize = a;
            while i < b
                invariant
                    rs == point_views(block.records@),
                    rs == block.spec_records(),
                    point_run(rs, key@) == Some((a as int, b as int)),
                    a <= i <= b,
                    b <= rs.len(),
                    first_visible(rs, a as int, b as int, read_sequence.spec_get()) == first_visible(
                        rs,
                        i as int,
                        b as int,
                        read_sequence.spec_get(),
                    ),
                decreases b - i,
            {
                proof {
                    assert(rs[i as int] == block.records@[i as int]@);
                }
                if block.records[i].internal_key.sequence().get() <= read_sequence.get() {
                    let found = copy_records(block.records.as_slice(), i, i + 1);
                    let mut found = found;
                    proof {
                        assert(point_views(found@).len() == 1);
                        assert(point_views(found@)[0] == rs[i as int]);
                        assert(found@[0]@ == rs[i as int]);
                        assert(rs[i as int].key.sequence <= read_sequence.spec_get());
                        assert(first_visible(rs, i as int, b as int, read_sequence.spec_get()) == i);
                    }
                    let ghost only = found@[0];
                    let popped = found.pop();
                    proof {
                        assert(popped == Some(only));
                    }
                    return popped;
                }
                i = i + 1;
            }
            None
        },
    }
}

} // verus!
