//! Blob files: large values stored apart from tables, each record framed
//! and checksummed, with a properties block and a footer.

use vstd::prelude::*;
use crate::codec::{block_codable, block_decoded, block_encoded, decode_block, encode_block, oversized_block_message, CodecId};
use crate::error::{Error, ErrorKind, Result};
use crate::internal_key::{
    compare_internal_keys, internal_key_less, key_lt, key_order, lemma_key_order_antisym,
    InternalKey, InternalKeyView, ValueKind,
};
use crate::types::Sequence;
use crate::blob_format::{
    codec_tag, corrupt, fault_is, invalid, invalid_blob, key_bytes, p_codec, p_key, p_u16, p_u64,
    p_u32, put_codec, put_internal_key, read_codec_field, read_internal_key, read_u16_field,
    read_u32_field, read_u64_field, short_field, Fault,
};
use crate::stats::sat_add;
use crate::text::{decimal, push_decimal};
use crate::bytes::Order;
use crate::wire::{
    bytes_at, checksum, checksum_spec, le16, le32, le64, lemma_le_lengths, len_prefixed,
    put_bytes, put_u16, put_u32, put_u64, put_u8, take_at, u16_at, u32_at, u64_at, u8_at, Cursor,
};

verus! {

broadcast use crate::types::Sequence::lemma_sequence_eq, crate::types::Sequence::lemma_from_spec;

pub const BLOB_FILE_EXTENSION: &'static str = "trineb";
pub const BLOB_FILE_FORMAT_VERSION: u16 = 2;
pub const BLOB_MAGIC: u32 = 0x5452_424c;
pub const BLOB_FOOTER_MAGIC: u32 = 0x5452_4246;
pub const BLOB_HEADER_WITHOUT_CHECKSUM_LEN: usize = 39;
pub const BLOB_HEADER_LEN: usize = 43;
pub const BLOB_FOOTER_LEN: usize = 24;
pub const MIN_BLOB_RECORD_FRAME_BYTES: usize = 12;

/// Where a separated value lives in a blob file, and how to check it.
#[derive(Debug, Clone, Copy, PartialEq, Eq, Structural)]
pub struct BlobIndex {
    pub file_id: u64,
    pub offset: u64,
    pub encoded_len: u64,
    pub value_len: u64,
    pub value_checksum: u32,
    pub record_checksum: u32,
    pub compression: CodecId,
}

/// Fixed header of a blob file.
#[derive(Debug, Clone, Copy, PartialEq, Eq, Structural)]
pub struct BlobFileHeader {
    pub file_id: u64,
    pub creation_sequence: Sequence,
    pub bucket_options_digest: u64,
    pub blob_threshold_bytes: u64,
    pub default_compression: CodecId,
}

impl BlobFileHeader {
    #[must_use]
    pub fn new(
        file_id: u64,
        creation_sequence: Sequence,
        blob_threshold_bytes: u64,
        default_compression: CodecId,
    ) -> (r: Self)
        ensures
            r == (BlobFileHeader {
                file_id,
                creation_sequence,
                bucket_options_digest: 0,
                blob_threshold_bytes,
                default_compression,
            }),
    {
        Self {
            file_id,
            creation_sequence,
            bucket_options_digest: 0,
            blob_threshold_bytes,
            default_compression,
        }
    }
}

/// A value to store in a blob file, under its internal key.
#[derive(Debug, Clone, PartialEq, Eq)]
pub struct BlobRecord {
    pub internal_key: InternalKey,
    pub value: Vec<u8>,
    pub compression: CodecId,
}

pub struct BlobRecordView {
    pub key: InternalKeyView,
    pub value: Seq<u8>,
    pub compression: CodecId,
}

impl View for BlobRecord {
    type V = BlobRecordView;

    open spec fn view(&self) -> BlobRecordView {
        BlobRecordView { key: self.internal_key@, value: self.value@, compression: self.compression }
    }
}

/// A record of a blob file with the index that locates it.
#[derive(Debug, Clone, PartialEq, Eq)]
pub struct BlobFileRecord {
    pub index: BlobIndex,
    pub record: BlobRecord,
}

pub struct BlobFileRecordView {
    pub index: BlobIndex,
    pub record: BlobRecordView,
}

impl View for BlobFileRecord {
    type V = BlobFileRecordView;

    open spec fn view(&self) -> BlobFileRecordView {
        BlobFileRecordView { index: self.index, record: self.record@ }
    }
}

/// Summary of a blob file's records.
#[derive(Debug, Clone, PartialEq, Eq)]
pub struct BlobFileProperties {
    pub record_count: u64,
    pub value_bytes: u64,
    pub encoded_bytes: u64,
    pub compression_saved_bytes: u64,
    pub smallest_internal_key: InternalKey,
    pub largest_internal_key: InternalKey,
    pub smallest_sequence: Sequence,
    pub largest_sequence: Sequence,
}

pub struct BlobFilePropertiesView {
    pub record_count: u64,
    pub value_bytes: u64,
    pub encoded_bytes: u64,
    pub compression_saved_bytes: u64,
    pub smallest_internal_key: InternalKeyView,
    pub largest_internal_key: InternalKeyView,
    pub smallest_sequence: u64,
    pub largest_sequence: u64,
}

impl View for BlobFileProperties {
    type V = BlobFilePropertiesView;

    open spec fn view(&self) -> BlobFilePropertiesView {
        BlobFilePropertiesView {
            record_count: self.record_count,
            value_bytes: self.value_bytes,
            encoded_bytes: self.encoded_bytes,
            compression_saved_bytes: self.compression_saved_bytes,
            smallest_internal_key: self.smallest_internal_key@,
            largest_internal_key: self.largest_internal_key@,
            smallest_sequence: self.smallest_sequence.spec_get(),
            largest_sequence: self.largest_sequence.spec_get(),
        }
    }
}

/// A decoded blob file.
#[derive(Debug, Clone, PartialEq, Eq)]
pub struct BlobFile {
    pub header: BlobFileHeader,
    pub properties: BlobFileProperties,
    pub records: Vec<BlobFileRecord>,
}

pub struct BlobFileView {
    pub header: BlobFileHeader,
    pub properties: BlobFilePropertiesView,
    pub records: Seq<BlobFileRecordView>,
}

pub open spec fn file_record_views(records: Seq<BlobFileRecord>) -> Seq<BlobFileRecordView> {
    records.map_values(|r: BlobFileRecord| r@)
}

impl View for BlobFile {
    type V = BlobFileView;

    open spec fn view(&self) -> BlobFileView {
        BlobFileView {
            header: self.header,
            properties: self.properties@,
            records: file_record_views(self.records@),
        }
    }
}

/// How a table record refers to its value.
#[derive(Debug, Clone, PartialEq, Eq)]
pub enum ValueRef {
    Inline(Vec<u8>),
    BlobIndex(BlobIndex),
    Blob { file_id: u64, offset: u64, len: u64, checksum: u32 },
}

pub open spec fn value_ref_len(value: ValueRef) -> u64 {
    match value {
        ValueRef::Inline(bytes) => bytes@.len() as u64,
        ValueRef::BlobIndex(index) => index.value_len,
        ValueRef::Blob { len, .. } => len,
    }
}

/// The mathematical value of a [`ValueRef`].
pub enum ValueRefView {
    Inline(Seq<u8>),
    BlobIndex(BlobIndex),
    Blob { file_id: u64, offset: u64, len: u64, checksum: u32 },
}

impl View for ValueRef {
    type V = ValueRefView;

    open spec fn view(&self) -> ValueRefView {
        match *self {
            ValueRef::Inline(bytes) => ValueRefView::Inline(bytes@),
            ValueRef::BlobIndex(index) => ValueRefView::BlobIndex(index),
            ValueRef::Blob { file_id, offset, len, checksum } => ValueRefView::Blob {
                file_id,
                offset,
                len,
                checksum,
            },
        }
    }
}

/// A copy with the same view.
pub fn duplicate_value_ref(value: &ValueRef) -> (r: ValueRef)
    ensures
        r@ == value@,
{
    match value {
        ValueRef::Inline(bytes) => ValueRef::Inline(crate::bytes::to_vec(bytes.as_slice())),
        ValueRef::BlobIndex(index) => ValueRef::BlobIndex(*index),
        ValueRef::Blob { file_id, offset, len, checksum } => ValueRef::Blob {
            file_id: *file_id,
            offset: *offset,
            len: *len,
            checksum: *checksum,
        },
    }
}

impl ValueRef {
    /// Length of the value in bytes.
    #[must_use]
    pub fn len(&self) -> (r: u64)
        ensures
            r == value_ref_len(*self),
    {
        match self {
            ValueRef::Inline(bytes) => bytes.len() as u64,
            ValueRef::BlobIndex(index) => index.value_len,
            ValueRef::Blob { len, .. } => *len,
        }
    }

    #[must_use]
    pub fn is_empty(&self) -> (r: bool)
        ensures
            r == (value_ref_len(*self) == 0),
    {
        self.len() == 0
    }

    /// The bytes of an inline value.
    #[must_use]
    pub fn inline_bytes(&self) -> (r: Option<&[u8]>)
        ensures
            match *self {
                ValueRef::Inline(bytes) => r matches Some(b) && b@ == bytes@,
                _ => r is None,
            },
    {
        match self {
            ValueRef::Inline(bytes) => Some(bytes.as_slice()),
            ValueRef::BlobIndex(_) => None,
            ValueRef::Blob { .. } => None,
        }
    }
}

/// File name of a blob file: `blob-`, the id as 20 zero-padded digits, and
/// the blob extension.
pub open spec fn blob_file_name_spec(file_id: u64) -> Seq<char> {
    "blob-"@ + crate::text::decimal_padded(file_id as nat, 20) + "."@ + BLOB_FILE_EXTENSION@
}

pub fn blob_file_name(file_id: u64) -> (r: String)
    ensures
        r@ == blob_file_name_spec(file_id),
{
    let mut name = String::from_str("blob-");
    crate::text::push_decimal_padded(&mut name, file_id, 20);
    name.append(".");
    name.append(BLOB_FILE_EXTENSION);
    name
}

/// Path of the blob file `file_id` in the database directory.
#[must_use]
pub fn blob_path(db_path: &std::path::Path, file_id: u64) -> (r: std::path::PathBuf)
    ensures
        r == crate::paths::joined_path(db_path, blob_file_name_spec(file_id)),
{
    let name = blob_file_name(file_id);
    crate::paths::join_path(db_path, name.as_str())
}

// ---------------------------------------------------------------- fixed reads

/// The little-endian `u32` at `offset`; fails when fewer than four bytes
/// remain there.
pub fn read_u32_at(bytes: &[u8], offset: usize) -> (r: Result<u32>)
    ensures
        match u32_at(bytes@, offset as int) {
            Some((v, _)) => r == Ok::<u32, Error>(v),
            None => r matches Err(e) && fault_is(e, invalid("short u32"@)),
        },
{
    if offset > bytes.len() || bytes.len() - offset < 4 {
        return Err(invalid_blob("short u32"));
    }
    let field = vstd::slice::slice_subrange(bytes, offset, offset + 4);
    Ok(vstd::bytes::u32_from_le_bytes(field))
}

/// The little-endian `u64` at `offset`; fails when fewer than eight bytes
/// remain there.
pub fn read_u64_at(bytes: &[u8], offset: usize) -> (r: Result<u64>)
    ensures
        match u64_at(bytes@, offset as int) {
            Some((v, _)) => r == Ok::<u64, Error>(v),
            None => r matches Err(e) && fault_is(e, invalid("short u64"@)),
        },
{
    if offset > bytes.len() || bytes.len() - offset < 8 {
        return Err(invalid_blob("short u64"));
    }
    let field = vstd::slice::slice_subrange(bytes, offset, offset + 8);
    Ok(vstd::bytes::u64_from_le_bytes(field))
}

// ---------------------------------------------------------------- header

/// Header fields before their checksum.
pub open spec fn header_fields(h: BlobFileHeader) -> Seq<u8> {
    le32(BLOB_MAGIC) + le16(BLOB_FILE_FORMAT_VERSION) + le64(h.file_id) + le64(
        h.creation_sequence.spec_get(),
    ) + le64(h.bucket_options_digest) + le64(h.blob_threshold_bytes) + seq![
        codec_tag(h.default_compression),
    ]
}

/// The header: its fields and their checksum.
pub open spec fn header_bytes(h: BlobFileHeader) -> Seq<u8> {
    header_fields(h) + le32(checksum_spec(header_fields(h)))
}

pub open spec fn unsupported_version(version: u16) -> Fault {
    Fault {
        kind: ErrorKind::UnsupportedFormat,
        message: "unsupported blob file version "@ + decimal(version as nat),
        exact: true,
    }
}

/// What reading the first `BLOB_HEADER_LEN` bytes of a blob file gives.
pub open spec fn header_spec(hb: Seq<u8>) -> core::result::Result<BlobFileHeader, Fault> {
    match u32_at(hb, BLOB_HEADER_WITHOUT_CHECKSUM_LEN as int) {
        None => Err(invalid("short u32"@)),
        Some((stored, _)) => if checksum_spec(hb.take(BLOB_HEADER_WITHOUT_CHECKSUM_LEN as int))
            != stored {
            Err(corrupt("blob header checksum mismatch"@))
        } else {
            match p_u32(hb, 0) {
                Err(f) => Err(f),
                Ok((magic, p1)) => if magic != BLOB_MAGIC {
                    Err(invalid("magic mismatch"@))
                } else {
                    match p_u16(hb, p1) {
                        Err(f) => Err(f),
                        Ok((version, p2)) => if version != BLOB_FILE_FORMAT_VERSION {
                            Err(unsupported_version(version))
                        } else {
                            header_tail_spec(hb, p2)
                        },
                    }
                },
            }
        },
    }
}

pub open spec fn header_tail_spec(hb: Seq<u8>, p: int) -> core::result::Result<BlobFileHeader, Fault> {
    match p_u64(hb, p) {
        Err(f) => Err(f),
        Ok((file_id, p1)) => match p_u64(hb, p1) {
            Err(f) => Err(f),
            Ok((sequence, p2)) => match p_u64(hb, p2) {
                Err(f) => Err(f),
                Ok((digest, p3)) => match p_u64(hb, p3) {
                    Err(f) => Err(f),
                    Ok((threshold, p4)) => match p_codec(hb, p4) {
                        Err(f) => Err(f),
                        Ok((codec, _)) => Ok(
                            BlobFileHeader {
                                file_id,
                                creation_sequence: Sequence::from_spec(sequence),
                                bucket_options_digest: digest,
                                blob_threshold_bytes: threshold,
                                default_compression: codec,
                            },
                        ),
                    },
                },
            },
        },
    }
}

pub fn put_header(out: &mut Vec<u8>, header: BlobFileHeader)
    ensures
        final(out)@ == old(out)@ + header_bytes(header),
{
    let mut fields: Vec<u8> = Vec::new();
    put_u32(&mut fields, BLOB_MAGIC);
    put_u16(&mut fields, BLOB_FILE_FORMAT_VERSION);
    put_u64(&mut fields, header.file_id);
    put_u64(&mut fields, header.creation_sequence.get());
    put_u64(&mut fields, header.bucket_options_digest);
    put_u64(&mut fields, header.blob_threshold_bytes);
    put_codec(&mut fields, header.default_compression);
    let header_checksum = checksum(fields.as_slice());
    crate::bytes::append_bytes(out, fields.as_slice());
    put_u32(out, header_checksum);
    proof {
        assert(fields@ =~= header_fields(header));
        assert(final(out)@ =~= old(out)@ + header_bytes(header));
    }
}

/// Reads the header from the first `BLOB_HEADER_LEN` bytes.
pub fn decode_header(bytes: &[u8]) -> (r: Result<BlobFileHeader>)
    requires
        bytes@.len() >= BLOB_HEADER_LEN,
    ensures
        match header_spec(bytes@.take(BLOB_HEADER_LEN as int)) {
            Ok(h) => r == Ok::<BlobFileHeader, Error>(h),
            Err(f) => r matches Err(e) && fault_is(e, f),
        },
{
    let header_bytes = vstd::slice::slice_subrange(bytes, 0, BLOB_HEADER_LEN);
    assert(header_bytes@ =~= bytes@.take(BLOB_HEADER_LEN as int));
    let expected_checksum = match read_u32_at(header_bytes, BLOB_HEADER_WITHOUT_CHECKSUM_LEN) {
        Ok(v) => v,
        Err(e) => return Err(e),
    };
    let fields = vstd::slice::slice_subrange(header_bytes, 0, BLOB_HEADER_WITHOUT_CHECKSUM_LEN);
    assert(fields@ =~= header_bytes@.take(BLOB_HEADER_WITHOUT_CHECKSUM_LEN as int));
    if checksum(fields) != expected_checksum {
        return Err(Error::corruption("blob header checksum mismatch"));
    }
    let mut cursor = Cursor::new(header_bytes);
    let magic = match read_u32_field(&mut cursor) {
        Ok(v) => v,
        Err(e) => return Err(e),
    };
    if magic != BLOB_MAGIC {
        return Err(invalid_blob("magic mismatch"));
    }
    let version = match read_u16_field(&mut cursor) {
        Ok(v) => v,
        Err(e) => return Err(e),
    };
    if version != BLOB_FILE_FORMAT_VERSION {
        let mut message = String::from_str("unsupported blob file version ");
        push_decimal(&mut message, version as u64);
        return Err(Error::UnsupportedFormat { message });
    }
    let file_id = match read_u64_field(&mut cursor) {
        Ok(v) => v,
        Err(e) => return Err(e),
    };
    let sequence = match read_u64_field(&mut cursor) {
        Ok(v) => v,
        Err(e) => return Err(e),
    };
    let digest = match read_u64_field(&mut cursor) {
        Ok(v) => v,
        Err(e) => return Err(e),
    };
    let threshold = match read_u64_field(&mut cursor) {
        Ok(v) => v,
        Err(e) => return Err(e),
    };
    let codec = match read_codec_field(&mut cursor) {
        Ok(v) => v,
        Err(e) => return Err(e),
    };
    let creation_sequence = Sequence::new(sequence);
    proof {
        Sequence::lemma_from_spec(sequence);
        Sequence::lemma_sequence_eq(creation_sequence, Sequence::from_spec(sequence));
    }
    Ok(BlobFileHeader {
        file_id,
        creation_sequence,
        bucket_options_digest: digest,
        blob_threshold_bytes: threshold,
        default_compression: codec,
    })
}

// ---------------------------------------------------------------- footer

pub open spec fn footer_fields(properties_offset: u64, properties_len: u64) -> Seq<u8> {
    le64(properties_offset) + le64(properties_len)
}

/// The footer: where the properties block lies, its checksum and the
/// footer magic.
pub open spec fn footer_bytes(properties_offset: u64, properties_len: u64) -> Seq<u8> {
    footer_fields(properties_offset, properties_len) + le32(
        checksum_spec(footer_fields(properties_offset, properties_len)),
    ) + le32(BLOB_FOOTER_MAGIC)
}

/// What reading the footer bytes gives: the offset and length of the
/// properties block.
pub open spec fn footer_spec(fb: Seq<u8>) -> core::result::Result<(u64, u64), Fault> {
    if fb.len() != BLOB_FOOTER_LEN {
        Err(invalid("short footer"@))
    } else {
        match u32_at(fb, 20) {
            None => Err(invalid("short u32"@)),
            Some((magic, _)) => if magic != BLOB_FOOTER_MAGIC {
                Err(invalid("footer magic mismatch"@))
            } else {
                match u32_at(fb, 16) {
                    None => Err(invalid("short u32"@)),
                    Some((stored, _)) => if checksum_spec(fb.take(16)) != stored {
                        Err(corrupt("blob footer checksum mismatch"@))
                    } else {
                        match u64_at(fb, 0) {
                            None => Err(invalid("short u64"@)),
                            Some((offset, _)) => match u64_at(fb, 8) {
                                None => Err(invalid("short u64"@)),
                                Some((len, _)) => Ok((offset, len)),
                            },
                        }
                    },
                }
            },
        }
    }
}

pub fn put_footer(out: &mut Vec<u8>, properties_offset: u64, properties_len: u64)
    ensures
        final(out)@ == old(out)@ + footer_bytes(properties_offset, properties_len),
{
    let mut footer: Vec<u8> = Vec::new();
    put_u64(&mut footer, properties_offset);
    put_u64(&mut footer, properties_len);
    let footer_checksum = checksum(footer.as_slice());
    put_u32(&mut footer, footer_checksum);
    put_u32(&mut footer, BLOB_FOOTER_MAGIC);
    crate::bytes::append_bytes(out, footer.as_slice());
    proof {
        assert(final(out)@ =~= old(out)@ + footer_bytes(properties_offset, properties_len));
    }
}

pub fn decode_footer(footer: &[u8]) -> (r: Result<(u64, u64)>)
    ensures
        match footer_spec(footer@) {
            Ok(v) => r == Ok::<(u64, u64), Error>(v),
            Err(f) => r matches Err(e) && fault_is(e, f),
        },
{
    if footer.len() != BLOB_FOOTER_LEN {
        return Err(invalid_blob("short footer"));
    }
    let magic = match read_u32_at(footer, BLOB_FOOTER_LEN - 4) {
        Ok(v) => v,
        Err(e) => return Err(e),
    };
    if magic != BLOB_FOOTER_MAGIC {
        return Err(invalid_blob("footer magic mismatch"));
    }
    let expected_checksum = match read_u32_at(footer, 16) {
        Ok(v) => v,
        Err(e) => return Err(e),
    };
    let fields = vstd::slice::slice_subrange(footer, 0, 16);
    assert(fields@ =~= footer@.take(16));
    if checksum(fields) != expected_checksum {
        return Err(Error::corruption("blob footer checksum mismatch"));
    }
    let offset = match read_u64_at(footer, 0) {
        Ok(v) => v,
        Err(e) => return Err(e),
    };
    let len = match read_u64_at(footer, 8) {
        Ok(v) => v,
        Err(e) => return Err(e),
    };
    Ok((offset, len))
}

// ---------------------------------------------------------------- properties

/// `a - b`, or zero where `b` is larger.
pub open spec fn sat_sub(a: u64, b: u64) -> u64 {
    if a >= b {
        (a - b) as u64
    } else {
        0
    }
}

pub open spec fn sum_value_bytes(rs: Seq<BlobFileRecordView>) -> u64
    decreases rs.len(),
{
    if rs.len() == 0 {
        0
    } else {
        sat_add(sum_value_bytes(rs.drop_last()), rs.last().index.value_len)
    }
}

pub open spec fn sum_encoded_bytes(rs: Seq<BlobFileRecordView>) -> u64
    decreases rs.len(),
{
    if rs.len() == 0 {
        0
    } else {
        sat_add(sum_encoded_bytes(rs.drop_last()), rs.last().index.encoded_len)
    }
}

pub open spec fn sum_saved_bytes(rs: Seq<BlobFileRecordView>) -> u64
    decreases rs.len(),
{
    if rs.len() == 0 {
        0
    } else {
        sat_add(
            sum_saved_bytes(rs.drop_last()),
            sat_sub(rs.last().index.value_len, rs.last().index.encoded_len),
        )
    }
}

/// Smallest sequence among `first` and the records' sequences.
pub open spec fn min_sequence(first: u64, rs: Seq<BlobFileRecordView>) -> u64
    decreases rs.len(),
{
    if rs.len() == 0 {
        first
    } else {
        let rest = min_sequence(first, rs.drop_last());
        let last = rs.last().record.key.sequence;
        if last < rest {
            last
        } else {
            rest
        }
    }
}

/// Largest sequence among `first` and the records' sequences.
pub open spec fn max_sequence(first: u64, rs: Seq<BlobFileRecordView>) -> u64
    decreases rs.len(),
{
    if rs.len() == 0 {
        first
    } else {
        let rest = max_sequence(first, rs.drop_last());
        let last = rs.last().record.key.sequence;
        if last > rest {
            last
        } else {
            rest
        }
    }
}

/// The properties that summarise a non-empty list of records: their count,
/// saturating byte totals, the first and last keys, and the smallest and
/// largest sequences.
pub open spec fn properties_of(rs: Seq<BlobFileRecordView>) -> BlobFilePropertiesView {
    BlobFilePropertiesView {
        record_count: rs.len() as u64,
        value_bytes: sum_value_bytes(rs),
        encoded_bytes: sum_encoded_bytes(rs),
        compression_saved_bytes: sum_saved_bytes(rs),
        smallest_internal_key: rs[0].record.key,
        largest_internal_key: rs.last().record.key,
        smallest_sequence: min_sequence(rs[0].record.key.sequence, rs),
        largest_sequence: max_sequence(rs[0].record.key.sequence, rs),
    }
}

pub open spec fn options_fault(message: Seq<char>) -> Fault {
    Fault { kind: ErrorKind::InvalidOptions, message, exact: true }
}

fn duplicate_record(record: &BlobRecord) -> (r: BlobRecord)
    ensures
        r@ == record@,
{
    BlobRecord {
        internal_key: record.internal_key.duplicate(),
        value: crate::bytes::to_vec(record.value.as_slice()),
        compression: record.compression,
    }
}

/// Summarises records; fails on an empty list.
pub fn properties_from_records(records: &[BlobFileRecord]) -> (r: Result<BlobFileProperties>)
    ensures
        match r {
            Ok(p) => records@.len() > 0 && p@ == properties_of(file_record_views(records@)),
            Err(e) => records@.len() == 0 && fault_is(
                e,
                options_fault("cannot build blob properties without records"@),
            ),
        },
{
    if records.len() == 0 {
        return Err(Error::invalid_options("cannot build blob properties without records"));
    }
    let ghost views = file_record_views(records@);
    let first = &records[0];
    let last = &records[records.len() - 1];
    let first_sequence = first.record.internal_key.sequence();
    let mut smallest_sequence = first_sequence.get();
    let mut largest_sequence = first_sequence.get();
    let mut value_bytes: u64 = 0;
    let mut encoded_bytes: u64 = 0;
    let mut compression_saved_bytes: u64 = 0;
    let mut i: usize = 0;
    while i < records.len()
        invariant
            i <= records@.len(),
            records@.len() > 0,
            views == file_record_views(records@),
            first_sequence.spec_get() == views[0].record.key.sequence,
            value_bytes == sum_value_bytes(views.take(i as int)),
            encoded_bytes == sum_encoded_bytes(views.take(i as int)),
            compression_saved_bytes == sum_saved_bytes(views.take(i as int)),
            smallest_sequence == min_sequence(first_sequence.spec_get(), views.take(i as int)),
            largest_sequence == max_sequence(first_sequence.spec_get(), views.take(i as int)),
        decreases records@.len() - i,
    {
        let record = &records[i];
        proof {
            assert(views.take(i + 1).drop_last() =~= views.take(i as int));
            assert(views[i as int] == record@);
        }
        let sequence = record.record.internal_key.sequence().get();
        if sequence < smallest_sequence {
            smallest_sequence = sequence;
        }
        if sequence > largest_sequence {
            largest_sequence = sequence;
        }
        value_bytes = value_bytes.saturating_add(record.index.value_len);
        encoded_bytes = encoded_bytes.saturating_add(record.index.encoded_len);
        compression_saved_bytes = compression_saved_bytes.saturating_add(
            record.index.value_len.saturating_sub(record.index.encoded_len),
        );
        i = i + 1;
    }
    proof {
        assert(views.take(records@.len() as int) =~= views);
        assert(views[0] == first@);
        assert(views.last() == last@);
    }
    Ok(BlobFileProperties {
        record_count: records.len() as u64,
        value_bytes,
        encoded_bytes,
        compression_saved_bytes,
        smallest_internal_key: first.record.internal_key.duplicate(),
        largest_internal_key: last.record.internal_key.duplicate(),
        smallest_sequence: Sequence::new(smallest_sequence),
        largest_sequence: Sequence::new(largest_sequence),
    })
}

/// Properties fields before their checksum.
pub open spec fn properties_fields(p: BlobFilePropertiesView) -> Seq<u8> {
    le64(p.record_count) + le64(p.value_bytes) + le64(p.encoded_bytes) + le64(
        p.compression_saved_bytes,
    ) + key_bytes(p.smallest_internal_key) + key_bytes(p.largest_internal_key) + le64(
        p.smallest_sequence,
    ) + le64(p.largest_sequence)
}

/// The properties block: its fields and their checksum.
pub open spec fn properties_bytes(p: BlobFilePropertiesView) -> Seq<u8> {
    properties_fields(p) + le32(checksum_spec(properties_fields(p)))
}

/// Encodes a properties block; fails when a key's user key is longer than
/// `u32::MAX` bytes.
pub fn encode_properties(properties: &BlobFileProperties) -> (r: Result<Vec<u8>>)
    ensures
        r is Ok <==> (properties@.smallest_internal_key.user_key.len() <= u32::MAX
            && properties@.largest_internal_key.user_key.len() <= u32::MAX),
        r matches Ok(bytes) ==> bytes@ == properties_bytes(properties@),
{
    let mut bytes: Vec<u8> = Vec::new();
    put_u64(&mut bytes, properties.record_count);
    put_u64(&mut bytes, properties.value_bytes);
    put_u64(&mut bytes, properties.encoded_bytes);
    put_u64(&mut bytes, properties.compression_saved_bytes);
    let ghost before_keys = bytes@;
    match put_internal_key(&mut bytes, &properties.smallest_internal_key) {
        Ok(()) => {},
        Err(e) => return Err(e),
    }
    match put_internal_key(&mut bytes, &properties.largest_internal_key) {
        Ok(()) => {},
        Err(e) => return Err(e),
    }
    put_u64(&mut bytes, properties.smallest_sequence.get());
    put_u64(&mut bytes, properties.largest_sequence.get());
    let properties_checksum = checksum(bytes.as_slice());
    assert(bytes@ =~= properties_fields(properties@));
    put_u32(&mut bytes, properties_checksum);
    Ok(bytes)
}

/// What reading a properties block gives.
pub open spec fn properties_spec(pb: Seq<u8>) -> core::result::Result<BlobFilePropertiesView, Fault> {
    if pb.len() < 4 {
        Err(invalid("short properties block"@))
    } else {
        match u32_at(pb, pb.len() - 4) {
            None => Err(invalid("short u32"@)),
            Some((stored, _)) => if checksum_spec(pb.take(pb.len() - 4)) != stored {
                Err(corrupt("blob properties checksum mismatch"@))
            } else {
                properties_fields_spec(pb.take(pb.len() - 4))
            },
        }
    }
}

pub open spec fn properties_fields_spec(s: Seq<u8>) -> core::result::Result<BlobFilePropertiesView, Fault> {
    match p_u64(s, 0) {
        Err(f) => Err(f),
        Ok((record_count, p1)) => match p_u64(s, p1) {
            Err(f) => Err(f),
            Ok((value_bytes, p2)) => match p_u64(s, p2) {
                Err(f) => Err(f),
                Ok((encoded_bytes, p3)) => match p_u64(s, p3) {
                    Err(f) => Err(f),
                    Ok((compression_saved_bytes, p4)) => match p_key(s, p4) {
                        Err(f) => Err(f),
                        Ok((smallest_internal_key, p5)) => match p_key(s, p5) {
                            Err(f) => Err(f),
                            Ok((largest_internal_key, p6)) => match p_u64(s, p6) {
                                Err(f) => Err(f),
                                Ok((smallest_sequence, p7)) => match p_u64(s, p7) {
                                    Err(f) => Err(f),
                                    Ok((largest_sequence, _)) => Ok(
                                        BlobFilePropertiesView {
                                            record_count,
                                            value_bytes,
                                            encoded_bytes,
                                            compression_saved_bytes,
                                            smallest_internal_key,
                                            largest_internal_key,
                                            smallest_sequence,
                                            largest_sequence,
                                        },
                                    ),
                                },
                            },
                        },
                    },
                },
            },
        },
    }
}

/// Reads a properties block; bytes after the last field are not checked.
pub fn decode_properties(bytes: &[u8]) -> (r: Result<BlobFileProperties>)
    ensures
        match properties_spec(bytes@) {
            Ok(p) => r matches Ok(x) && x@ == p,
            Err(f) => r matches Err(e) && fault_is(e, f),
        },
{
    if bytes.len() < 4 {
        return Err(invalid_blob("short properties block"));
    }
    let checksum_offset = bytes.len() - 4;
    let stored_checksum = match read_u32_at(bytes, checksum_offset) {
        Ok(v) => v,
        Err(e) => return Err(e),
    };
    let body = vstd::slice::slice_subrange(bytes, 0, checksum_offset);
    assert(body@ =~= bytes@.take(checksum_offset as int));
    if checksum(body) != stored_checksum {
        return Err(Error::corruption("blob properties checksum mismatch"));
    }
    let mut c = Cursor::new(body);
    let record_count = match read_u64_field(&mut c) {
        Ok(v) => v,
        Err(e) => return Err(e),
    };
    let value_bytes = match read_u64_field(&mut c) {
        Ok(v) => v,
        Err(e) => return Err(e),
    };
    let encoded_bytes = match read_u64_field(&mut c) {
        Ok(v) => v,
        Err(e) => return Err(e),
    };
    let compression_saved_bytes = match read_u64_field(&mut c) {
        Ok(v) => v,
        Err(e) => return Err(e),
    };
    let smallest_internal_key = match read_internal_key(&mut c) {
        Ok(v) => v,
        Err(e) => return Err(e),
    };
    let largest_internal_key = match read_internal_key(&mut c) {
        Ok(v) => v,
        Err(e) => return Err(e),
    };
    let smallest_sequence = match read_u64_field(&mut c) {
        Ok(v) => v,
        Err(e) => return Err(e),
    };
    let largest_sequence = match read_u64_field(&mut c) {
        Ok(v) => v,
        Err(e) => return Err(e),
    };
    Ok(BlobFileProperties {
        record_count,
        value_bytes,
        encoded_bytes,
        compression_saved_bytes,
        smallest_internal_key,
        largest_internal_key,
        smallest_sequence: Sequence::new(smallest_sequence),
        largest_sequence: Sequence::new(largest_sequence),
    })
}

// ---------------------------------------------------------------- records

/// The stored form of a record's value.
pub open spec fn stored_value(r: BlobRecordView) -> Seq<u8> {
    block_encoded(r.compression, r.value)
}

/// A record body: key, value length, stored length, codec tag, value
/// checksum and the stored value.
pub open spec fn body_bytes(r: BlobRecordView) -> Seq<u8> {
    key_bytes(r.key) + le64(r.value.len() as u64) + le64(stored_value(r).len() as u64) + seq![
        codec_tag(r.compression),
    ] + le32(checksum_spec(r.value)) + stored_value(r)
}

/// A record frame: body length, body checksum and body.
pub open spec fn frame_bytes(r: BlobRecordView) -> Seq<u8> {
    le64(body_bytes(r).len() as u64) + le32(checksum_spec(body_bytes(r))) + body_bytes(r)
}

pub open spec fn frames(rs: Seq<BlobRecordView>) -> Seq<u8>
    decreases rs.len(),
{
    if rs.len() == 0 {
        Seq::empty()
    } else {
        frames(rs.drop_last()) + frame_bytes(rs.last())
    }
}

pub open spec fn record_views(records: Seq<BlobRecord>) -> Seq<BlobRecordView> {
    records.map_values(|r: BlobRecord| r@)
}

/// The index of record `i` of a blob file holding `rs`.
pub open spec fn index_of(file_id: u64, rs: Seq<BlobRecordView>, i: int) -> BlobIndex {
    BlobIndex {
        file_id,
        offset: (BLOB_HEADER_LEN + frames(rs.take(i)).len()) as u64,
        encoded_len: stored_value(rs[i]).len() as u64,
        value_len: rs[i].value.len() as u64,
        value_checksum: checksum_spec(rs[i].value),
        record_checksum: checksum_spec(body_bytes(rs[i])),
        compression: rs[i].compression,
    }
}

pub open spec fn indexed(file_id: u64, rs: Seq<BlobRecordView>) -> Seq<BlobFileRecordView> {
    Seq::new(
        rs.len(),
        |i: int| BlobFileRecordView { index: index_of(file_id, rs, i), record: rs[i] },
    )
}

/// The bytes of a blob file with this header and these records.
pub open spec fn file_bytes(h: BlobFileHeader, rs: Seq<BlobRecordView>) -> Seq<u8> {
    let head = header_bytes(h) + frames(rs);
    let props = properties_bytes(properties_of(indexed(h.file_id, rs)));
    head + props + footer_bytes(head.len() as u64, props.len() as u64)
}

/// Consecutive records are in internal-key order.
pub open spec fn keys_in_order(keys: Seq<InternalKeyView>) -> bool {
    forall|i: int, j: int|
        0 <= i && j == i + 1 && j < keys.len() ==> !key_lt(#[trigger] keys[j], #[trigger] keys[i])
}

pub open spec fn record_keys(rs: Seq<BlobRecordView>) -> Seq<InternalKeyView> {
    rs.map_values(|r: BlobRecordView| r.key)
}

pub open spec fn file_record_keys(rs: Seq<BlobFileRecordView>) -> Seq<InternalKeyView> {
    rs.map_values(|r: BlobFileRecordView| r.record.key)
}

/// What keeps a record out of a blob file, if anything.
pub open spec fn record_problem(r: BlobRecordView) -> Option<Fault> {
    if r.key.kind != ValueKind::Put {
        Some(options_fault("blob records can only store put values"@))
    } else if !block_codable(r.compression, r.value) {
        Some(options_fault(oversized_block_message()))
    } else if r.key.user_key.len() > u32::MAX {
        Some(options_fault("blob byte field exceeds u32::MAX"@))
    } else {
        None
    }
}

/// The problem of the first record from `i` on that has one.
pub open spec fn first_problem(rs: Seq<BlobRecordView>, i: int) -> Option<Fault>
    decreases rs.len() - i,
{
    if i < 0 || i >= rs.len() {
        None
    } else {
        match record_problem(rs[i]) {
            Some(f) => Some(f),
            None => first_problem(rs, i + 1),
        }
    }
}

/// Why records cannot be written as a blob file, if they cannot.
pub open spec fn encode_fault(rs: Seq<BlobRecordView>) -> Option<Fault> {
    if rs.len() == 0 {
        Some(options_fault("cannot write an empty blob file"@))
    } else if !keys_in_order(record_keys(rs)) {
        Some(options_fault("blob records must be sorted by internal key"@))
    } else {
        first_problem(rs, 0)
    }
}

/// Checks that consecutive records are in internal-key order.
pub fn validate_blob_record_order(records: &[BlobRecord]) -> (r: Result<()>)
    ensures
        match r {
            Ok(()) => keys_in_order(record_keys(record_views(records@))),
            Err(e) => !keys_in_order(record_keys(record_views(records@))) && fault_is(
                e,
                options_fault("blob records must be sorted by internal key"@),
            ),
        },
{
    let ghost keys = record_keys(record_views(records@));
    let mut i: usize = 1;
    while i < records.len()
        invariant
            1 <= i,
            keys == record_keys(record_views(records@)),
            keys.len() == records@.len(),
            forall|j: int, k: int|
                0 <= j && k == j + 1 && k < i && k < keys.len() ==> !key_lt(#[trigger] keys[k], #[trigger] keys[j]),
        decreases records@.len() - i,
    {
        proof {
            assert(keys[i - 1] == records@[i - 1]@.key);
            assert(keys[i as int] == records@[i as int]@.key);
        }
        if internal_key_less(&records[i].internal_key, &records[i - 1].internal_key) {
            return Err(Error::invalid_options("blob records must be sorted by internal key"));
        }
        i = i + 1;
    }
    Ok(())
}

pub open spec fn decode_failure(message: Seq<char>) -> Fault {
    Fault { kind: ErrorKind::Corruption, message, exact: false }
}

/// What reading a record body gives.
pub open spec fn record_body_spec(file_id: u64, offset: u64, record_checksum: u32, s: Seq<u8>) -> core::result::Result<BlobFileRecordView, Fault> {
    match p_key(s, 0) {
        Err(f) => Err(f),
        Ok((key, p1)) => if key.kind != ValueKind::Put {
            Err(invalid("blob record internal key is not a put"@))
        } else {
            match p_u64(s, p1) {
                Err(f) => Err(f),
                Ok((value_len, p2)) => match p_u64(s, p2) {
                    Err(f) => Err(f),
                    Ok((encoded_len, p3)) => match p_codec(s, p3) {
                        Err(f) => Err(f),
                        Ok((compression, p4)) => match p_u32(s, p4) {
                            Err(f) => Err(f),
                            Ok((value_checksum, p5)) => record_value_spec(
                                BlobIndex {
                                    file_id,
                                    offset,
                                    encoded_len,
                                    value_len,
                                    value_checksum,
                                    record_checksum,
                                    compression,
                                },
                                key,
                                s,
                                p5,
                            ),
                        },
                    },
                },
            }
        },
    }
}

pub open spec fn record_value_spec(index: BlobIndex, key: InternalKeyView, s: Seq<u8>, p: int) -> core::result::Result<BlobFileRecordView, Fault> {
    if index.encoded_len > usize::MAX {
        Err(corrupt("encoded blob length"@ + " exceeds usize"@))
    } else {
        match take_at(s, p, index.encoded_len as int) {
            None => Err(short_field()),
            Some((stored, q)) => if q != s.len() {
                Err(invalid("blob record has trailing bytes"@))
            } else if index.value_len > usize::MAX {
                Err(corrupt("blob value length"@ + " exceeds usize"@))
            } else {
                match block_decoded(index.compression, stored, index.value_len as nat) {
                    None => Err(decode_failure("blob value cannot be decoded: "@)),
                    Some(value) => if checksum_spec(value) != index.value_checksum {
                        Err(corrupt("blob value checksum mismatch"@))
                    } else {
                        Ok(
                            BlobFileRecordView {
                                index,
                                record: BlobRecordView { key, value, compression: index.compression },
                            },
                        )
                    },
                }
            },
        }
    }
}

pub fn u64_to_usize(value: u64, field: &str) -> (r: Result<usize>)
    ensures
        match r {
            Ok(v) => value <= usize::MAX && v == value,
            Err(e) => value > usize::MAX && fault_is(e, corrupt(field@ + " exceeds usize"@)),
        },
{
    if value > usize::MAX as u64 {
        let mut message = String::from_str(field);
        message.append(" exceeds usize");
        return Err(Error::Corruption { message });
    }
    Ok(value as usize)
}

/// Reads one record body found at `offset` of blob file `file_id`.
pub fn decode_record_body(file_id: u64, offset: u64, record_checksum: u32, body: &[u8]) -> (r: Result<BlobFileRecord>)
    ensures
        match record_body_spec(file_id, offset, record_checksum, body@) {
            Ok(v) => r matches Ok(x) && x@ == v,
            Err(f) => r matches Err(e) && fault_is(e, f),
        },
{
    let mut cursor = Cursor::new(body);
    let internal_key = match read_internal_key(&mut cursor) {
        Ok(k) => k,
        Err(e) => return Err(e),
    };
    if internal_key.kind() != ValueKind::Put {
        return Err(invalid_blob("blob record internal key is not a put"));
    }
    let value_len = match read_u64_field(&mut cursor) {
        Ok(v) => v,
        Err(e) => return Err(e),
    };
    let encoded_len = match read_u64_field(&mut cursor) {
        Ok(v) => v,
        Err(e) => return Err(e),
    };
    let compression = match read_codec_field(&mut cursor) {
        Ok(v) => v,
        Err(e) => return Err(e),
    };
    let value_checksum = match read_u32_field(&mut cursor) {
        Ok(v) => v,
        Err(e) => return Err(e),
    };
    let encoded_size = match u64_to_usize(encoded_len, "encoded blob length") {
        Ok(v) => v,
        Err(e) => return Err(e),
    };
    let encoded_value = match cursor.read_exact(encoded_size) {
        Some(bytes) => bytes,
        None => return Err(invalid_blob("short byte field")),
    };
    if cursor.remaining_len() != 0 {
        return Err(invalid_blob("blob record has trailing bytes"));
    }
    let value_size = match u64_to_usize(value_len, "blob value length") {
        Ok(v) => v,
        Err(e) => return Err(e),
    };
    let value = match decode_block(compression, encoded_value, value_size) {
        Ok(value) => value,
        Err(error) => {
            let mut message = String::from_str("blob value cannot be decoded: ");
            let detail = error.describe();
            message.append(detail.as_str());
            return Err(Error::Corruption { message });
        },
    };
    if checksum(value.as_slice()) != value_checksum {
        return Err(Error::corruption("blob value checksum mismatch"));
    }
    Ok(BlobFileRecord {
        index: BlobIndex {
            file_id,
            offset,
            encoded_len,
            value_len,
            value_checksum,
            record_checksum,
            compression,
        },
        record: BlobRecord { internal_key, value, compression },
    })
}

/// The records found from position `p` of the record area on.
pub open spec fn records_from(file_id: u64, s: Seq<u8>, p: int) -> core::result::Result<Seq<BlobFileRecordView>, Fault>
    decreases s.len() - p,
{
    if p < 0 || p >= s.len() {
        Ok(Seq::empty())
    } else if s.len() - p < MIN_BLOB_RECORD_FRAME_BYTES {
        Err(invalid("short blob record frame"@))
    } else if p + BLOB_HEADER_LEN > u64::MAX {
        Err(invalid("blob record offset overflow"@))
    } else {
        match u64_at(s, p) {
            None => Err(short_field()),
            Some((body_len, p1)) => if body_len > usize::MAX {
                Err(corrupt("blob record length"@ + " exceeds usize"@))
            } else {
                match u32_at(s, p1) {
                    None => Err(short_field()),
                    Some((record_checksum, p2)) => match take_at(s, p2, body_len as int) {
                        None => Err(short_field()),
                        Some((body, q)) => if checksum_spec(body) != record_checksum {
                            Err(corrupt("blob record checksum mismatch"@))
                        } else {
                            match record_body_spec(
                                file_id,
                                (p + BLOB_HEADER_LEN) as u64,
                                record_checksum,
                                body,
                            ) {
                                Err(f) => Err(f),
                                Ok(record) => match records_from(file_id, s, q) {
                                    Err(f) => Err(f),
                                    Ok(rest) => Ok(seq![record] + rest),
                                },
                            }
                        },
                    },
                }
            },
        }
    }
}

/// `acc` followed by what `rest` found, or the fault of `rest`.
pub open spec fn prepend(acc: Seq<BlobFileRecordView>, rest: core::result::Result<Seq<BlobFileRecordView>, Fault>) -> core::result::Result<Seq<BlobFileRecordView>, Fault> {
    match rest {
        Ok(more) => Ok(acc + more),
        Err(f) => Err(f),
    }
}

/// What reading the record area of blob file `file_id` gives.
pub open spec fn decode_records_spec(file_id: u64, s: Seq<u8>) -> core::result::Result<Seq<BlobFileRecordView>, Fault> {
    match records_from(file_id, s, 0) {
        Err(f) => Err(f),
        Ok(rs) => if !keys_in_order(file_record_keys(rs)) {
            Err(corrupt("blob records are not ordered by internal key"@))
        } else {
            Ok(rs)
        },
    }
}

/// Reads every record of the record area, then checks their order.
pub fn decode_records(file_id: u64, bytes: &[u8]) -> (r: Result<Vec<BlobFileRecord>>)
    ensures
        match decode_records_spec(file_id, bytes@) {
            Ok(v) => r matches Ok(x) && file_record_views(x@) == v,
            Err(f) => r matches Err(e) && fault_is(e, f),
        },
{
    let mut cursor = Cursor::new(bytes);
    let mut records: Vec<BlobFileRecord> = Vec::new();
    while cursor.remaining_len() != 0
        invariant
            cursor.valid(),
            cursor.data() == bytes@,
            records_from(file_id, bytes@, 0) == prepend(
                file_record_views(records@),
                records_from(file_id, bytes@, cursor.pos()),
            ),
        decreases bytes@.len() - cursor.pos(),
    {
        let ghost p = cursor.pos();
        let ghost acc = file_record_views(records@);
        if cursor.remaining_len() < MIN_BLOB_RECORD_FRAME_BYTES {
            assert(0 <= p < bytes@.len());
            assert(bytes@.len() - p < MIN_BLOB_RECORD_FRAME_BYTES);
            assert(records_from(file_id, bytes@, p) == Err::<Seq<BlobFileRecordView>, Fault>(invalid("short blob record frame"@)));
            return Err(invalid_blob("short blob record frame"));
        }
        let position = cursor.offset();
        if position as u64 > u64::MAX - (BLOB_HEADER_LEN as u64) {
            return Err(invalid_blob("blob record offset overflow"));
        }
        let offset = position as u64 + BLOB_HEADER_LEN as u64;
        let body_len = match cursor.read_u64() {
            Some(v) => v,
            None => return Err(invalid_blob("short byte field")),
        };
        let body_size = match u64_to_usize(body_len, "blob record length") {
            Ok(v) => v,
            Err(e) => return Err(e),
        };
        let record_checksum = match cursor.read_u32() {
            Some(v) => v,
            None => return Err(invalid_blob("short byte field")),
        };
        let body = match cursor.read_exact(body_size) {
            Some(b) => b,
            None => return Err(invalid_blob("short byte field")),
        };
        if checksum(body) != record_checksum {
            return Err(Error::corruption("blob record checksum mismatch"));
        }
        let record = match decode_record_body(file_id, offset, record_checksum, body) {
            Ok(record) => record,
            Err(e) => return Err(e),
        };
        let ghost rv = record@;
        records.push(record);
        proof {
            assert(file_record_views(records@) =~= acc.push(rv));
            match records_from(file_id, bytes@, cursor.pos()) {
                Ok(rest) => {
                    assert(acc + (seq![rv] + rest) =~= acc.push(rv) + rest);
                },
                Err(_) => {},
            }
        }
    }
    proof {
        assert(file_record_views(records@) + Seq::<BlobFileRecordView>::empty() =~= file_record_views(records@));
        assert(records_from(file_id, bytes@, 0) == Ok::<Seq<BlobFileRecordView>, Fault>(file_record_views(records@)));
    }
    let ghost views = file_record_views(records@);
    let ghost keys = file_record_keys(views);
    let mut i: usize = 1;
    while i < records.len()
        invariant
            1 <= i,
            views == file_record_views(records@),
            keys == file_record_keys(views),
            keys.len() == records@.len(),
            decode_records_spec(file_id, bytes@) == (if keys_in_order(keys) {
                Ok::<Seq<BlobFileRecordView>, Fault>(views)
            } else {
                Err(corrupt("blob records are not ordered by internal key"@))
            }),
            forall|j: int, k: int|
                0 <= j && k == j + 1 && k < i && k < keys.len() ==> !key_lt(#[trigger] keys[k], #[trigger] keys[j]),
        decreases records@.len() - i,
    {
        proof {
            assert(keys[i - 1] == records@[i - 1]@.record.key);
            assert(keys[i as int] == records@[i as int]@.record.key);
        }
        if internal_key_less(&records[i].record.internal_key, &records[i - 1].record.internal_key) {
            return Err(Error::corruption("blob records are not ordered by internal key"));
        }
        i = i + 1;
    }
    Ok(records)
}

// ---------------------------------------------------------------- files

pub proof fn lemma_header_len(h: BlobFileHeader)
    ensures
        header_fields(h).len() == BLOB_HEADER_WITHOUT_CHECKSUM_LEN,
        header_bytes(h).len() == BLOB_HEADER_LEN,
{
    lemma_le_lengths(BLOB_FILE_FORMAT_VERSION, BLOB_MAGIC, h.file_id);
    lemma_le_lengths(0, 0, h.creation_sequence.spec_get());
    lemma_le_lengths(0, 0, h.bucket_options_digest);
    lemma_le_lengths(0, checksum_spec(header_fields(h)), h.blob_threshold_bytes);
}

/// `r` is what encoding a blob file of `header` and `records` gives: the
/// file's bytes, which decode back to the file, and each record's index; or
/// the error of the first record that cannot be encoded.
pub open spec fn encoded_blob_file(header: BlobFileHeader, records: Seq<BlobRecord>, r: Result<(Vec<u8>, Vec<BlobIndex>)>) -> bool {
        match r {
            Ok((bytes, indexes)) => {
                &&& encode_fault(record_views(records)) is None
                &&& bytes@ == file_bytes(header, record_views(records))
                &&& decode_blob_spec(bytes@) == Ok::<BlobFileView, Fault>(
                    crate::blob_round_trip::written_file(header, record_views(records)),
                )
                &&& indexes@.len() == records.len()
                &&& forall|i: int|
                    0 <= i < indexes@.len() ==> #[trigger] indexes@[i] == index_of(
                        header.file_id,
                        record_views(records),
                        i,
                    )
            },
            Err(e) => encode_fault(record_views(records)) matches Some(f) && fault_is(e, f),
        }
}

/// Encodes a blob file: the header, one frame per record in the given
/// order, the properties block and the footer. Returns the bytes and the
/// index of each record.
#[verifier::spinoff_prover]
#[verifier::rlimit(40)]
pub fn encode_blob_file(header: BlobFileHeader, records: &[BlobRecord]) -> (r: Result<(Vec<u8>, Vec<BlobIndex>)>)
    ensures
        encoded_blob_file(header, records@, r),
{
    let ghost rvs = record_views(records@);
    if records.len() == 0 {
        return Err(Error::invalid_options("cannot write an empty blob file"));
    }
    match validate_blob_record_order(records) {
        Ok(()) => {},
        Err(e) => return Err(e),
    }
    let mut bytes: Vec<u8> = Vec::new();
    put_header(&mut bytes, header);
    proof {
        lemma_header_len(header);
        assert(rvs.take(0) =~= Seq::<BlobRecordView>::empty());
        assert(bytes@ =~= header_bytes(header) + frames(rvs.take(0)));
    }
    let mut indexed_records: Vec<BlobFileRecord> = Vec::new();
    let mut i: usize = 0;
    while i < records.len()
        invariant
            rvs == record_views(records@),
            rvs.len() == records@.len(),
            rvs.len() > 0,
            keys_in_order(record_keys(rvs)),
            i <= rvs.len(),
            bytes@ == header_bytes(header) + frames(rvs.take(i as int)),
            header_bytes(header).len() == BLOB_HEADER_LEN,
            file_record_views(indexed_records@) =~= indexed(header.file_id, rvs).take(i as int),
            first_problem(rvs, 0) == first_problem(rvs, i as int),
            forall|j: int| 0 <= j < i ==> (#[trigger] record_problem(rvs[j])) is None,
            forall|j: int|
                0 <= j < i ==> block_decoded(
                    (#[trigger] rvs[j]).compression,
                    stored_value(rvs[j]),
                    rvs[j].value.len(),
                ) == Some(rvs[j].value),
            forall|j: int| 0 <= j < i ==> (#[trigger] rvs[j]).value.len() <= usize::MAX,
        decreases rvs.len() - i,
    {
        let record = &records[i];
        let ghost rv = rvs[i as int];
        assert(rv == record@);
        if record.internal_key.kind() != ValueKind::Put {
            return Err(Error::invalid_options("blob records can only store put values"));
        }
        let offset = bytes.len() as u64;
        let encoded_value = match encode_block(record.compression, record.value.as_slice()) {
            Ok(v) => v,
            Err(e) => return Err(e),
        };
        let value_len = record.value.len() as u64;
        let encoded_len = encoded_value.len() as u64;
        let value_checksum = checksum(record.value.as_slice());
        let mut body: Vec<u8> = Vec::new();
        match put_internal_key(&mut body, &record.internal_key) {
            Ok(()) => {},
            Err(e) => return Err(e),
        }
        put_u64(&mut body, value_len);
        put_u64(&mut body, encoded_len);
        put_codec(&mut body, record.compression);
        put_u32(&mut body, value_checksum);
        crate::bytes::append_bytes(&mut body, encoded_value.as_slice());
        assert(body@ =~= body_bytes(rv));
        let record_checksum = checksum(body.as_slice());
        put_u64(&mut bytes, body.len() as u64);
        put_u32(&mut bytes, record_checksum);
        crate::bytes::append_bytes(&mut bytes, body.as_slice());
        let index = BlobIndex {
            file_id: header.file_id,
            offset,
            encoded_len,
            value_len,
            value_checksum,
            record_checksum,
            compression: record.compression,
        };
        proof {
            assert(rvs.take(i + 1).drop_last() =~= rvs.take(i as int));
            assert(rvs.take(i + 1).last() == rv);
            assert(bytes@ =~= header_bytes(header) + frames(rvs.take(i + 1)));
            assert(index == index_of(header.file_id, rvs, i as int));
        }
        let ghost before = file_record_views(indexed_records@);
        indexed_records.push(BlobFileRecord { index, record: duplicate_record(record) });
        proof {
            assert(file_record_views(indexed_records@) =~= before.push(
                BlobFileRecordView { index, record: rv },
            ));
            assert(indexed(header.file_id, rvs).take(i + 1) =~= indexed(header.file_id, rvs).take(
                i as int,
            ).push(BlobFileRecordView { index, record: rv }));
        }
        i = i + 1;
    }
    proof {
        assert(rvs.take(rvs.len() as int) =~= rvs);
        assert(indexed(header.file_id, rvs).take(rvs.len() as int) =~= indexed(header.file_id, rvs));
    }
    let properties = match properties_from_records(indexed_records.as_slice()) {
        Ok(p) => p,
        Err(e) => return Err(e),
    };
    proof {
        assert(record_problem(rvs[0]) is None);
        assert(record_problem(rvs[rvs.len() - 1]) is None);
    }
    let properties_offset = bytes.len() as u64;
    let properties_bytes = match encode_properties(&properties) {
        Ok(b) => b,
        Err(e) => return Err(e),
    };
    let properties_len = properties_bytes.len() as u64;
    crate::bytes::append_bytes(&mut bytes, properties_bytes.as_slice());
    put_footer(&mut bytes, properties_offset, properties_len);
    let mut indexes: Vec<BlobIndex> = Vec::new();
    let mut k: usize = 0;
    while k < indexed_records.len()
        invariant
            k <= indexed_records@.len(),
            indexed_records@.len() == rvs.len(),
            file_record_views(indexed_records@) =~= indexed(header.file_id, rvs),
            indexes@.len() == k,
            forall|j: int| 0 <= j < k ==> #[trigger] indexes@[j] == index_of(header.file_id, rvs, j),
        decreases indexed_records@.len() - k,
    {
        assert(file_record_views(indexed_records@)[k as int].index == index_of(header.file_id, rvs, k as int));
        indexes.push(indexed_records[k].index);
        k = k + 1;
    }
    let total_len = bytes.len();
    proof {
        assert(bytes@ =~= file_bytes(header, rvs));
        assert(total_len == file_bytes(header, rvs).len());
        crate::blob_round_trip::lemma_blob_round_trip(header, rvs);
    }
    Ok((bytes, indexes))
}

/// Internal keys with the same view.
pub fn keys_equal(a: &InternalKey, b: &InternalKey) -> (r: bool)
    ensures
        r == (a@ == b@),
{
    proof {
        lemma_key_order_antisym(a@, b@);
    }
    match compare_internal_keys(a, b) {
        Order::Equal => true,
        Order::Less => false,
        Order::Greater => false,
    }
}

/// Properties with the same view.
pub fn properties_equal(a: &BlobFileProperties, b: &BlobFileProperties) -> (r: bool)
    ensures
        r == (a@ == b@),
{
    a.record_count == b.record_count && a.value_bytes == b.value_bytes && a.encoded_bytes
        == b.encoded_bytes && a.compression_saved_bytes == b.compression_saved_bytes
        && keys_equal(&a.smallest_internal_key, &b.smallest_internal_key) && keys_equal(
        &a.largest_internal_key,
        &b.largest_internal_key,
    ) && a.smallest_sequence.get() == b.smallest_sequence.get() && a.largest_sequence.get()
        == b.largest_sequence.get()
}

/// What reading a whole blob file gives.
pub open spec fn decode_blob_spec(b: Seq<u8>) -> core::result::Result<BlobFileView, Fault> {
    if b.len() < BLOB_HEADER_LEN + BLOB_FOOTER_LEN {
        Err(invalid("file is too short"@))
    } else {
        match header_spec(b.take(BLOB_HEADER_LEN as int)) {
            Err(f) => Err(f),
            Ok(h) => match footer_spec(b.subrange(b.len() - BLOB_FOOTER_LEN, b.len() as int)) {
                Err(f) => Err(f),
                Ok((po, pl)) => if po > usize::MAX {
                    Err(corrupt("blob properties offset"@ + " exceeds usize"@))
                } else if pl > usize::MAX {
                    Err(corrupt("blob properties length"@ + " exceeds usize"@))
                } else if po + pl > usize::MAX {
                    Err(invalid("properties bounds overflow"@))
                } else if po < BLOB_HEADER_LEN || po + pl > b.len() - BLOB_FOOTER_LEN {
                    Err(invalid("properties bounds are outside the blob file"@))
                } else {
                    match properties_spec(b.subrange(po as int, po + pl)) {
                        Err(f) => Err(f),
                        Ok(props) => match decode_records_spec(
                            h.file_id,
                            b.subrange(BLOB_HEADER_LEN as int, po as int),
                        ) {
                            Err(f) => Err(f),
                            Ok(rs) => if rs.len() == 0 {
                                Err(options_fault("cannot build blob properties without records"@))
                            } else if props != properties_of(rs) {
                                Err(corrupt("blob properties do not match records"@))
                            } else {
                                Ok(BlobFileView { header: h, properties: props, records: rs })
                            },
                        },
                    }
                },
            },
        }
    }
}

/// Decodes and checks a whole blob file.
pub fn decode_blob_file(bytes: &[u8]) -> (r: Result<BlobFile>)
    ensures
        match decode_blob_spec(bytes@) {
            Ok(v) => r matches Ok(file) && file@ == v,
            Err(f) => r matches Err(e) && fault_is(e, f),
        },
{
    if bytes.len() < BLOB_HEADER_LEN + BLOB_FOOTER_LEN {
        return Err(invalid_blob("file is too short"));
    }
    let header = match decode_header(bytes) {
        Ok(h) => h,
        Err(e) => return Err(e),
    };
    let footer_start = bytes.len() - BLOB_FOOTER_LEN;
    let footer = vstd::slice::slice_subrange(bytes, footer_start, bytes.len());
    let (properties_offset, properties_len) = match decode_footer(footer) {
        Ok(v) => v,
        Err(e) => return Err(e),
    };
    let properties_start = match u64_to_usize(properties_offset, "blob properties offset") {
        Ok(v) => v,
        Err(e) => return Err(e),
    };
    let properties_size = match u64_to_usize(properties_len, "blob properties length") {
        Ok(v) => v,
        Err(e) => return Err(e),
    };
    let properties_end = match properties_start.checked_add(properties_size) {
        Some(v) => v,
        None => return Err(invalid_blob("properties bounds overflow")),
    };
    if properties_start < BLOB_HEADER_LEN || properties_end > footer_start {
        return Err(invalid_blob("properties bounds are outside the blob file"));
    }
    let properties = match decode_properties(
        vstd::slice::slice_subrange(bytes, properties_start, properties_end),
    ) {
        Ok(p) => p,
        Err(e) => return Err(e),
    };
    let records = match decode_records(
        header.file_id,
        vstd::slice::slice_subrange(bytes, BLOB_HEADER_LEN, properties_start),
    ) {
        Ok(r) => r,
        Err(e) => return Err(e),
    };
    let computed = match properties_from_records(records.as_slice()) {
        Ok(p) => p,
        Err(e) => return Err(e),
    };
    if !properties_equal(&properties, &computed) {
        return Err(Error::corruption("blob properties do not match records"));
    }
    Ok(BlobFile { header, properties, records })
}

// ---------------------------------------------------------------- reads of values

/// Finds the record at `index.offset` in a decoded blob file, checks that its
/// index is exactly `index` and, where a key is expected, that the record
/// carries it, and returns the value.
pub fn value_from_blob_file(file: BlobFile, index: &BlobIndex, expected_internal_key: Option<&InternalKey>) -> (r: Result<Vec<u8>>)
    ensures
        ({
            let rs = file@.records;
            match r {
                Ok(value) => exists|i: int|
                    0 <= i < rs.len() && rs[i].index.offset == index.offset && (forall|j: int|
                        0 <= j < i ==> rs[j].index.offset != index.offset) && rs[i].index == *index
                        && (expected_internal_key matches Some(k) ==> rs[i].record.key == k@)
                        && value@ == rs[i].record.value,
                Err(e) => e.kind() == ErrorKind::Corruption && ((forall|i: int|
                    0 <= i < rs.len() ==> rs[i].index.offset != index.offset) || exists|i: int|
                    0 <= i < rs.len() && rs[i].index.offset == index.offset && (forall|j: int|
                        0 <= j < i ==> rs[j].index.offset != index.offset) && (rs[i].index != *index
                        || (expected_internal_key matches Some(k) && rs[i].record.key != k@))),
            }
        }),
{
    let ghost rs = file@.records;
    let records = file.records;
    let mut i: usize = 0;
    while i < records.len()
        invariant
            rs == file@.records,
            rs == file_record_views(records@),
            i <= records@.len(),
            forall|j: int| 0 <= j < i ==> rs[j].index.offset != index.offset,
        decreases records@.len() - i,
    {
        if records[i].index.offset == index.offset {
            let record = &records[i];
            assert(rs[i as int] == record@);
            assert(rs[i as int].index.offset == index.offset);
            if record.index != *index {
                assert(rs[i as int].index != *index);
                return Err(Error::corruption("blob index metadata mismatch"));
            }
            match expected_internal_key {
                Some(expected) => {
                    if !keys_equal(&record.record.internal_key, expected) {
                        return Err(Error::corruption("blob record internal key mismatch"));
                    }
                },
                None => {},
            }
            return Ok(crate::bytes::to_vec(record.record.value.as_slice()));
        }
        i = i + 1;
    }
    Err(Error::corruption("blob index offset is not present in blob file"))
}

/// Reads the value an index points at from the bytes of its blob file:
/// decodes the file, then checks the index against the stored record.
pub fn indexed_value(bytes: &[u8], index: &BlobIndex, expected_internal_key: Option<&InternalKey>) -> (r: Result<Vec<u8>>)
    ensures
        decode_blob_spec(bytes@) matches Err(f) ==> r matches Err(e) && fault_is(e, f),
        r matches Ok(value) ==> decode_blob_spec(bytes@) matches Ok(v) && exists|i: int|
            0 <= i < v.records.len() && v.records[i].index == *index && value@
                == v.records[i].record.value && (expected_internal_key matches Some(k)
                ==> v.records[i].record.key == k@),
        decode_blob_spec(bytes@) matches Ok(v) ==> (r is Ok <==> exists|i: int|
            0 <= i < v.records.len() && v.records[i].index.offset == index.offset && (forall|j: int|
                0 <= j < i ==> v.records[j].index.offset != index.offset) && v.records[i].index
                == *index && (expected_internal_key matches Some(k) ==> v.records[i].record.key
                == k@)),
{
    let file = match decode_blob_file(bytes) {
        Ok(file) => file,
        Err(e) => return Err(e),
    };
    value_from_blob_file(file, index, expected_internal_key)
}

/// Checks bytes read for a raw blob reference against its checksum.
pub fn checked_blob_bytes(bytes: Vec<u8>, expected_checksum: u32) -> (r: Result<Vec<u8>>)
    ensures
        match r {
            Ok(v) => checksum_spec(bytes@) == expected_checksum && v@ == bytes@,
            Err(e) => checksum_spec(bytes@) != expected_checksum && fault_is(
                e,
                corrupt("blob checksum mismatch"@),
            ),
        },
{
    if checksum(bytes.as_slice()) != expected_checksum {
        return Err(Error::corruption("blob checksum mismatch"));
    }
    Ok(bytes)
}

// ---------------------------------------------------------------- value separation

/// A table record: its internal key and its value, if it has one.
pub type TableEntry = (InternalKey, Option<ValueRef>);

pub open spec fn entry_value(e: TableEntry) -> Option<ValueRefView> {
    match e.1 {
        Some(v) => Some(v@),
        None => None,
    }
}

/// The entry holds an inline value of at least `threshold` bytes.
pub open spec fn is_large(e: TableEntry, threshold: usize) -> bool {
    entry_value(e) matches Some(ValueRefView::Inline(bytes)) && bytes.len() >= threshold
}

pub open spec fn inline_value(e: TableEntry) -> Seq<u8> {
    match entry_value(e) {
        Some(ValueRefView::Inline(bytes)) => bytes,
        _ => Seq::empty(),
    }
}

/// The blob records for the large values of `es`, in order.
pub open spec fn large_values(es: Seq<TableEntry>, threshold: usize, compression: CodecId) -> Seq<BlobRecordView>
    decreases es.len(),
{
    if es.len() == 0 {
        Seq::empty()
    } else {
        let rest = large_values(es.drop_last(), threshold, compression);
        if is_large(es.last(), threshold) {
            rest.push(
                BlobRecordView { key: es.last().0@, value: inline_value(es.last()), compression },
            )
        } else {
            rest
        }
    }
}

/// Largest sequence of the entries' keys, zero for none.
pub open spec fn max_entry_sequence(es: Seq<TableEntry>) -> u64
    decreases es.len(),
{
    if es.len() == 0 {
        0
    } else {
        let rest = max_entry_sequence(es.drop_last());
        let last = es.last().0@.sequence;
        if last > rest {
            last
        } else {
            rest
        }
    }
}

/// Picks the values that go to a blob file: every inline value of at least
/// `threshold` bytes. Returns `None` when there is none; else the header of
/// the blob file, whose creation sequence is the largest sequence among all
/// entries, and its records in entry order.
pub fn plan_blob_records(file_id: u64, threshold: usize, compression: CodecId, records: &[TableEntry]) -> (r: Option<(BlobFileHeader, Vec<BlobRecord>)>)
    ensures
        r is None <==> large_values(records@, threshold, compression).len() == 0,
        r matches Some((header, blob_records)) ==> {
            &&& header == BlobFileHeader {
                file_id,
                creation_sequence: Sequence::from_spec(max_entry_sequence(records@)),
                bucket_options_digest: 0,
                blob_threshold_bytes: threshold as u64,
                default_compression: compression,
            }
            &&& record_views(blob_records@) == large_values(records@, threshold, compression)
        },
{
    let mut blob_records: Vec<BlobRecord> = Vec::new();
    let mut creation_sequence: u64 = 0;
    let mut i: usize = 0;
    while i < records.len()
        invariant
            i <= records@.len(),
            record_views(blob_records@) == large_values(records@.take(i as int), threshold, compression),
            creation_sequence == max_entry_sequence(records@.take(i as int)),
        decreases records@.len() - i,
    {
        let entry = &records[i];
        proof {
            assert(records@.take(i + 1).drop_last() =~= records@.take(i as int));
            assert(records@.take(i + 1).last() == *entry);
        }
        let sequence = entry.0.sequence().get();
        if sequence > creation_sequence {
            creation_sequence = sequence;
        }
        let ghost before = record_views(blob_records@);
        match &entry.1 {
            Some(ValueRef::Inline(bytes)) => {
                if bytes.len() >= threshold {
                    blob_records.push(
                        BlobRecord {
                            internal_key: entry.0.duplicate(),
                            value: crate::bytes::to_vec(bytes.as_slice()),
                            compression,
                        },
                    );
                    assert(record_views(blob_records@) =~= before.push(
                        BlobRecordView { key: entry.0@, value: bytes@, compression },
                    ));
                }
            },
            _ => {},
        }
        i = i + 1;
    }
    proof {
        assert(records@.take(records@.len() as int) =~= records@);
    }
    if blob_records.len() == 0 {
        return None;
    }
    let sequence = Sequence::new(creation_sequence);
    proof {
        Sequence::lemma_from_spec(creation_sequence);
        Sequence::lemma_sequence_eq(sequence, Sequence::from_spec(creation_sequence));
    }
    Some((BlobFileHeader::new(file_id, sequence, threshold as u64, compression), blob_records))
}

/// Number of large values among the entries.
pub open spec fn large_count(es: Seq<TableEntry>, threshold: usize) -> nat
    decreases es.len(),
{
    if es.len() == 0 {
        0
    } else {
        large_count(es.drop_last(), threshold) + if is_large(es.last(), threshold) {
            1nat
        } else {
            0nat
        }
    }
}

/// Replaces each large inline value by the next blob index, in order; the
/// other entries stay as they are. Fails when there are fewer indexes than
/// large values, or more.
pub fn apply_blob_indexes(records: &[TableEntry], threshold: usize, indexes: &[BlobIndex]) -> (r: Result<Vec<TableEntry>>)
    ensures
        match r {
            Ok(out) => {
                &&& large_count(records@, threshold) == indexes@.len()
                &&& out@.len() == records@.len()
                &&& forall|i: int|
                    0 <= i < records@.len() ==> (#[trigger] out@[i]).0@ == records@[i].0@ && entry_value(
                        out@[i],
                    ) == if is_large(records@[i], threshold) {
                        Some(ValueRefView::BlobIndex(indexes@[large_count(records@.take(i), threshold) as int]))
                    } else {
                        entry_value(records@[i])
                    }
            },
            Err(e) => if large_count(records@, threshold) > indexes@.len() {
                fault_is(e, corrupt("missing blob index for separated value"@))
            } else {
                large_count(records@, threshold) < indexes@.len() && fault_is(
                    e,
                    corrupt("unused blob index after rewriting large values"@),
                )
            },
        },
{
    let mut out: Vec<TableEntry> = Vec::new();
    let mut next: usize = 0;
    let mut i: usize = 0;
    while i < records.len()
        invariant
            i <= records@.len(),
            next == large_count(records@.take(i as int), threshold),
            next <= indexes@.len(),
            out@.len() == i,
            forall|j: int|
                0 <= j < i ==> (#[trigger] out@[j]).0@ == records@[j].0@ && entry_value(out@[j])
                    == if is_large(records@[j], threshold) {
                    Some(ValueRefView::BlobIndex(indexes@[large_count(records@.take(j), threshold) as int]))
                } else {
                    entry_value(records@[j])
                },
        decreases records@.len() - i,
    {
        let entry = &records[i];
        proof {
            assert(records@.take(i + 1).drop_last() =~= records@.take(i as int));
            assert(records@.take(i + 1).last() == *entry);
        }
        let large = match &entry.1 {
            Some(ValueRef::Inline(bytes)) => bytes.len() >= threshold,
            _ => false,
        };
        let value = if large {
            if next >= indexes.len() {
                proof {
                    lemma_large_count_monotone(records@, threshold, i + 1);
                }
                return Err(Error::corruption("missing blob index for separated value"));
            }
            let index = indexes[next];
            next = next + 1;
            Some(ValueRef::BlobIndex(index))
        } else {
            match &entry.1 {
                Some(v) => Some(duplicate_value_ref(v)),
                None => None,
            }
        };
        out.push((entry.0.duplicate(), value));
        i = i + 1;
    }
    proof {
        assert(records@.take(records@.len() as int) =~= records@);
    }
    if next < indexes.len() {
        return Err(Error::corruption("unused blob index after rewriting large values"));
    }
    Ok(out)
}

/// The count of large values never shrinks as more entries are taken.
pub proof fn lemma_large_count_monotone(es: Seq<TableEntry>, threshold: usize, n: int)
    requires
        0 <= n <= es.len(),
    ensures
        large_count(es.take(n), threshold) <= large_count(es, threshold),
    decreases es.len() - n,
{
    if n < es.len() {
        lemma_large_count_monotone(es, threshold, n + 1);
        assert(es.take(n + 1).drop_last() =~= es.take(n));
    } else {
        assert(es.take(n) =~= es);
    }
}

/// Encodes the blob file `file_id`: its header must carry that id.
pub fn encode_blob_file_with_id(file_id: u64, header: BlobFileHeader, records: &[BlobRecord]) -> (r: Result<(Vec<u8>, Vec<BlobIndex>)>)
    ensures
        header.file_id != file_id ==> (r matches Err(e) && e.kind() == ErrorKind::InvalidOptions && e.message_view()
            == "blob header file id must match the output file id"@),
        header.file_id == file_id ==> encoded_blob_file(header, records@, r),
{
    if header.file_id != file_id {
        return Err(Error::invalid_options("blob header file id must match the output file id"));
    }
    encode_blob_file(header, records)
}

/// The message of a blob file whose header names another file.
pub open spec fn id_mismatch_message(file_id: u64, header_id: u64) -> Seq<char> {
    "blob file id mismatch: path has "@ + crate::text::decimal(file_id as nat) + ", header has "@
        + crate::text::decimal(header_id as nat)
}

/// Decodes the blob file `file_id`: its header must carry that id.
pub fn decode_blob_file_with_id(bytes: &[u8], file_id: u64) -> (r: Result<BlobFile>)
    ensures
        match decode_blob_spec(bytes@) {
            Ok(v) => if v.header.file_id == file_id {
                r matches Ok(file) && file@ == v
            } else {
                r matches Err(e) && e.kind() == ErrorKind::Corruption && e.message_view() == id_mismatch_message(
                    file_id,
                    v.header.file_id,
                )
            },
            Err(f) => r matches Err(e) && fault_is(e, f),
        },
{
    let file = match decode_blob_file(bytes) {
        Ok(file) => file,
        Err(e) => return Err(e),
    };
    if file.header.file_id != file_id {
        let mut message = String::from_str("blob file id mismatch: path has ");
        message.append(crate::text::decimal_string(file_id).as_str());
        message.append(", header has ");
        message.append(crate::text::decimal_string(file.header.file_id).as_str());
        return Err(Error::Corruption { message });
    }
    Ok(file)
}

} // verus!
