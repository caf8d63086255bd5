//! The byte layout of blob files: how internal keys, the header, the
//! properties block and the footer are written, and how each is read back,
//! with the reason a read gives up.

use vstd::prelude::*;
use crate::codec::CodecId;
use crate::error::{Error, ErrorKind, Result};
use crate::internal_key::{InternalKey, InternalKeyView, ValueKind};
use crate::text::{decimal, push_decimal};
use crate::types::Sequence;
use crate::wire::{bytes_at, le32, le64, len_prefixed, put_bytes, put_u32, put_u64, put_u8, take_at, u16_at, u32_at, u64_at, u8_at, Cursor};

verus! {

/// Why a read of blob bytes gives up: the error kind and its message. Where
/// `exact` is false only the start of the message is fixed.
pub struct Fault {
    pub kind: ErrorKind,
    pub message: Seq<char>,
    pub exact: bool,
}

/// `e` is the error that reports `f`.
pub open spec fn fault_is(e: Error, f: Fault) -> bool {
    &&& e.kind() == f.kind
    &&& f.exact ==> e.message_view() == f.message
    &&& !f.exact ==> f.message.is_prefix_of(e.message_view())
}

pub open spec fn invalid(message: Seq<char>) -> Fault {
    Fault { kind: ErrorKind::InvalidFormat, message: "invalid blob file: "@ + message, exact: true }
}

pub open spec fn corrupt(message: Seq<char>) -> Fault {
    Fault { kind: ErrorKind::Corruption, message, exact: true }
}

pub open spec fn short_field() -> Fault {
    invalid("short byte field"@)
}

/// Error for malformed blob bytes: `invalid blob file: ` and the detail.
pub fn invalid_blob(message: &str) -> (r: Error)
    ensures
        fault_is(r, invalid(message@)),
{
    let mut text = String::from_str("invalid blob file: ");
    text.append(message);
    Error::InvalidFormat { message: text }
}

// ---------------------------------------------------------------- tags

pub open spec fn kind_tag(kind: ValueKind) -> u8 {
    match kind {
        ValueKind::Put => 1,
        ValueKind::PointDelete => 2,
        ValueKind::RangeDelete => 3,
    }
}

pub open spec fn kind_of_tag(tag: u8) -> Option<ValueKind> {
    if tag == 1 {
        Some(ValueKind::Put)
    } else if tag == 2 {
        Some(ValueKind::PointDelete)
    } else if tag == 3 {
        Some(ValueKind::RangeDelete)
    } else {
        None
    }
}

pub open spec fn codec_tag(codec: CodecId) -> u8 {
    match codec {
        CodecId::Uncompressed => 0,
        CodecId::FastLz4Block => 1,
    }
}

pub open spec fn codec_of_tag(tag: u8) -> Option<CodecId> {
    if tag == 0 {
        Some(CodecId::Uncompressed)
    } else if tag == 1 {
        Some(CodecId::FastLz4Block)
    } else {
        None
    }
}

pub open spec fn unknown_kind(tag: u8) -> Fault {
    Fault {
        kind: ErrorKind::InvalidFormat,
        message: "unknown blob value kind "@ + decimal(tag as nat),
        exact: true,
    }
}

pub open spec fn unknown_codec(tag: u8) -> Fault {
    Fault {
        kind: ErrorKind::UnsupportedFormat,
        message: "unknown blob codec "@ + decimal(tag as nat),
        exact: true,
    }
}

pub fn put_value_kind(out: &mut Vec<u8>, kind: ValueKind)
    ensures
        final(out)@ == old(out)@.push(kind_tag(kind)),
{
    put_u8(
        out,
        match kind {
            ValueKind::Put => 1,
            ValueKind::PointDelete => 2,
            ValueKind::RangeDelete => 3,
        },
    );
}

pub fn value_kind_from_tag(tag: u8) -> (r: Result<ValueKind>)
    ensures
        match kind_of_tag(tag) {
            Some(k) => r == Ok::<ValueKind, Error>(k),
            None => r matches Err(e) && fault_is(e, unknown_kind(tag)),
        },
{
    if tag == 1 {
        Ok(ValueKind::Put)
    } else if tag == 2 {
        Ok(ValueKind::PointDelete)
    } else if tag == 3 {
        Ok(ValueKind::RangeDelete)
    } else {
        let mut message = String::from_str("unknown blob value kind ");
        push_decimal(&mut message, tag as u64);
        Err(Error::InvalidFormat { message })
    }
}

pub fn put_codec(out: &mut Vec<u8>, codec: CodecId)
    ensures
        final(out)@ == old(out)@.push(codec_tag(codec)),
{
    put_u8(
        out,
        match codec {
            CodecId::Uncompressed => 0,
            CodecId::FastLz4Block => 1,
        },
    );
}

pub fn codec_from_tag(tag: u8) -> (r: Result<CodecId>)
    ensures
        match codec_of_tag(tag) {
            Some(c) => r == Ok::<CodecId, Error>(c),
            None => r matches Err(e) && fault_is(e, unknown_codec(tag)),
        },
{
    if tag == 0 {
        Ok(CodecId::Uncompressed)
    } else if tag == 1 {
        Ok(CodecId::FastLz4Block)
    } else {
        let mut message = String::from_str("unknown blob codec ");
        push_decimal(&mut message, tag as u64);
        Err(Error::UnsupportedFormat { message })
    }
}

// ---------------------------------------------------------------- fields

/// A `u64` field at `p`, or the fault of a short field.
pub open spec fn p_u64(s: Seq<u8>, p: int) -> core::result::Result<(u64, int), Fault> {
    match u64_at(s, p) {
        Some(x) => Ok(x),
        None => Err(short_field()),
    }
}

pub open spec fn p_u32(s: Seq<u8>, p: int) -> core::result::Result<(u32, int), Fault> {
    match u32_at(s, p) {
        Some(x) => Ok(x),
        None => Err(short_field()),
    }
}

pub open spec fn p_u16(s: Seq<u8>, p: int) -> core::result::Result<(u16, int), Fault> {
    match u16_at(s, p) {
        Some(x) => Ok(x),
        None => Err(short_field()),
    }
}

pub open spec fn p_u8(s: Seq<u8>, p: int) -> core::result::Result<(u8, int), Fault> {
    match u8_at(s, p) {
        Some(x) => Ok(x),
        None => Err(invalid("short u8"@)),
    }
}

pub open spec fn p_codec(s: Seq<u8>, p: int) -> core::result::Result<(CodecId, int), Fault> {
    match p_u8(s, p) {
        Err(f) => Err(f),
        Ok((tag, q)) => match codec_of_tag(tag) {
            Some(c) => Ok((c, q)),
            None => Err(unknown_codec(tag)),
        },
    }
}

/// An internal key at `p`: length-prefixed user key, sequence, kind tag and
/// batch index.
pub open spec fn p_key(s: Seq<u8>, p: int) -> core::result::Result<(InternalKeyView, int), Fault> {
    match bytes_at(s, p) {
        None => Err(short_field()),
        Some((user_key, p1)) => match p_u64(s, p1) {
            Err(f) => Err(f),
            Ok((sequence, p2)) => match p_u8(s, p2) {
                Err(f) => Err(f),
                Ok((tag, p3)) => match kind_of_tag(tag) {
                    None => Err(unknown_kind(tag)),
                    Some(kind) => match p_u32(s, p3) {
                        Err(f) => Err(f),
                        Ok((batch_index, p4)) => Ok(
                            (InternalKeyView { user_key, sequence, kind, batch_index }, p4),
                        ),
                    },
                },
            },
        },
    }
}

/// Bytes of an internal key.
pub open spec fn key_bytes(key: InternalKeyView) -> Seq<u8> {
    len_prefixed(key.user_key) + le64(key.sequence) + seq![kind_tag(key.kind)] + le32(key.batch_index)
}

pub open spec fn short_key_field() -> Fault {
    Fault {
        kind: ErrorKind::InvalidOptions,
        message: "blob byte field exceeds u32::MAX"@,
        exact: true,
    }
}

/// Appends an internal key; fails, leaving `out` as it was, when its user
/// key is longer than `u32::MAX` bytes.
pub fn put_internal_key(out: &mut Vec<u8>, key: &InternalKey) -> (r: Result<()>)
    ensures
        r is Ok <==> key@.user_key.len() <= u32::MAX,
        r is Ok ==> final(out)@ == old(out)@ + key_bytes(key@),
        r matches Err(e) ==> final(out)@ == old(out)@ && fault_is(e, short_key_field()),
{
    let user_key = key.user_key();
    if user_key.len() > 0xffff_ffff {
        return Err(Error::invalid_options("blob byte field exceeds u32::MAX"));
    }
    let ghost start = out@;
    let put = put_bytes(out, user_key, "blob byte field exceeds u32::MAX");
    put_u64(out, key.sequence().get());
    put_value_kind(out, key.kind());
    put_u32(out, key.batch_index());
    proof {
        assert(put is Ok);
        assert(out@ =~= start + key_bytes(key@));
    }
    Ok(())
}

// ---------------------------------------------------------------- reads

pub fn read_u64_field(c: &mut Cursor) -> (r: Result<u64>)
    requires
        old(c).valid(),
    ensures
        final(c).valid(),
        final(c).data() == old(c).data(),
        match p_u64(old(c).data(), old(c).pos()) {
            Ok((v, q)) => r == Ok::<u64, Error>(v) && final(c).pos() == q,
            Err(f) => r matches Err(e) && fault_is(e, f),
        },
{
    match c.read_u64() {
        Some(v) => Ok(v),
        None => Err(invalid_blob("short byte field")),
    }
}

pub fn read_u32_field(c: &mut Cursor) -> (r: Result<u32>)
    requires
        old(c).valid(),
    ensures
        final(c).valid(),
        final(c).data() == old(c).data(),
        match p_u32(old(c).data(), old(c).pos()) {
            Ok((v, q)) => r == Ok::<u32, Error>(v) && final(c).pos() == q,
            Err(f) => r matches Err(e) && fault_is(e, f),
        },
{
    match c.read_u32() {
        Some(v) => Ok(v),
        None => Err(invalid_blob("short byte field")),
    }
}

pub fn read_u16_field(c: &mut Cursor) -> (r: Result<u16>)
    requires
        old(c).valid(),
    ensures
        final(c).valid(),
        final(c).data() == old(c).data(),
        match p_u16(old(c).data(), old(c).pos()) {
            Ok((v, q)) => r == Ok::<u16, Error>(v) && final(c).pos() == q,
            Err(f) => r matches Err(e) && fault_is(e, f),
        },
{
    match c.read_u16() {
        Some(v) => Ok(v),
        None => Err(invalid_blob("short byte field")),
    }
}

pub fn read_u8_field(c: &mut Cursor) -> (r: Result<u8>)
    requires
        old(c).valid(),
    ensures
        final(c).valid(),
        final(c).data() == old(c).data(),
        match p_u8(old(c).data(), old(c).pos()) {
            Ok((v, q)) => r == Ok::<u8, Error>(v) && final(c).pos() == q,
            Err(f) => r matches Err(e) && fault_is(e, f),
        },
{
    match c.read_u8() {
        Some(v) => Ok(v),
        None => Err(invalid_blob("short u8")),
    }
}

pub fn read_codec_field(c: &mut Cursor) -> (r: Result<CodecId>)
    requires
        old(c).valid(),
    ensures
        final(c).valid(),
        final(c).data() == old(c).data(),
        match p_codec(old(c).data(), old(c).pos()) {
            Ok((v, q)) => r == Ok::<CodecId, Error>(v) && final(c).pos() == q,
            Err(f) => r matches Err(e) && fault_is(e, f),
        },
{
    let tag = match read_u8_field(c) {
        Ok(tag) => tag,
        Err(e) => return Err(e),
    };
    codec_from_tag(tag)
}

/// Reads an internal key.
pub fn read_internal_key(c: &mut Cursor) -> (r: Result<InternalKey>)
    requires
        old(c).valid(),
    ensures
        final(c).valid(),
        final(c).data() == old(c).data(),
        match p_key(old(c).data(), old(c).pos()) {
            Ok((k, q)) => r matches Ok(key) && key@ == k && final(c).pos() == q,
            Err(f) => r matches Err(e) && fault_is(e, f),
        },
{
    let user_key = match c.read_bytes() {
        Some(bytes) => crate::bytes::to_vec(bytes),
        None => return Err(invalid_blob("short byte field")),
    };
    let sequence = match read_u64_field(c) {
        Ok(v) => v,
        Err(e) => return Err(e),
    };
    let tag = match read_u8_field(c) {
        Ok(v) => v,
        Err(e) => return Err(e),
    };
    let kind = match value_kind_from_tag(tag) {
        Ok(kind) => kind,
        Err(e) => return Err(e),
    };
    let batch_index = match read_u32_field(c) {
        Ok(v) => v,
        Err(e) => return Err(e),
    };
    Ok(InternalKey::new(user_key, Sequence::new(sequence), kind, batch_index))
}

} // verus!
