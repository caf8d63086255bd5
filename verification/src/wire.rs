//! Little-endian field encoding shared by the on-disk formats, the FNV-1a
//! checksum they use, and a cursor that reads fields back.

use vstd::prelude::*;
use vstd::bytes::{
    spec_u16_from_le_bytes, spec_u16_to_le_bytes, spec_u32_from_le_bytes, spec_u32_to_le_bytes,
    spec_u64_from_le_bytes, spec_u64_to_le_bytes,
};
use crate::error::{Error, ErrorKind, Result};

verus! {

pub open spec fn le16(v: u16) -> Seq<u8> {
    spec_u16_to_le_bytes(v)
}

pub open spec fn le32(v: u32) -> Seq<u8> {
    spec_u32_to_le_bytes(v)
}

pub open spec fn le64(v: u64) -> Seq<u8> {
    spec_u64_to_le_bytes(v)
}

/// A byte string preceded by its length as a little-endian `u32`.
pub open spec fn len_prefixed(bytes: Seq<u8>) -> Seq<u8> {
    le32(bytes.len() as u32) + bytes
}

/// `n` bytes of `s` at position `p`, and the position after them.
pub open spec fn take_at(s: Seq<u8>, p: int, n: int) -> Option<(Seq<u8>, int)> {
    if 0 <= p && 0 <= n && p + n <= s.len() {
        Some((s.subrange(p, p + n), p + n))
    } else {
        None
    }
}

pub open spec fn u8_at(s: Seq<u8>, p: int) -> Option<(u8, int)> {
    if 0 <= p < s.len() {
        Some((s[p], p + 1))
    } else {
        None
    }
}

pub open spec fn u16_at(s: Seq<u8>, p: int) -> Option<(u16, int)> {
    match take_at(s, p, 2) {
        Some((b, q)) => Some((spec_u16_from_le_bytes(b), q)),
        None => None,
    }
}

pub open spec fn u32_at(s: Seq<u8>, p: int) -> Option<(u32, int)> {
    match take_at(s, p, 4) {
        Some((b, q)) => Some((spec_u32_from_le_bytes(b), q)),
        None => None,
    }
}

pub open spec fn u64_at(s: Seq<u8>, p: int) -> Option<(u64, int)> {
    match take_at(s, p, 8) {
        Some((b, q)) => Some((spec_u64_from_le_bytes(b), q)),
        None => None,
    }
}

/// A length-prefixed byte string at position `p`.
pub open spec fn bytes_at(s: Seq<u8>, p: int) -> Option<(Seq<u8>, int)> {
    match u32_at(s, p) {
        Some((n, q)) => take_at(s, q, n as int),
        None => None,
    }
}

pub proof fn lemma_u16_at(s: Seq<u8>, p: int, v: u16)
    requires
        0 <= p,
        p + 2 <= s.len(),
        s.subrange(p, p + 2) == le16(v),
    ensures
        u16_at(s, p) == Some((v, p + 2)),
{
    vstd::bytes::lemma_auto_spec_u16_to_from_le_bytes();
    assert(spec_u16_to_le_bytes(v).len() == 2);
}

pub proof fn lemma_u32_at(s: Seq<u8>, p: int, v: u32)
    requires
        0 <= p,
        p + 4 <= s.len(),
        s.subrange(p, p + 4) == le32(v),
    ensures
        u32_at(s, p) == Some((v, p + 4)),
{
    vstd::bytes::lemma_auto_spec_u32_to_from_le_bytes();
    assert(spec_u32_to_le_bytes(v).len() == 4);
}

pub proof fn lemma_u64_at(s: Seq<u8>, p: int, v: u64)
    requires
        0 <= p,
        p + 8 <= s.len(),
        s.subrange(p, p + 8) == le64(v),
    ensures
        u64_at(s, p) == Some((v, p + 8)),
{
    vstd::bytes::lemma_auto_spec_u64_to_from_le_bytes();
}

pub proof fn lemma_le_lengths(a: u16, b: u32, c: u64)
    ensures
        le16(a).len() == 2,
        le32(b).len() == 4,
        le64(c).len() == 8,
{
    vstd::bytes::lemma_auto_spec_u16_to_from_le_bytes();
    vstd::bytes::lemma_auto_spec_u32_to_from_le_bytes();
    vstd::bytes::lemma_auto_spec_u64_to_from_le_bytes();
}

pub proof fn lemma_bytes_at(s: Seq<u8>, p: int, bytes: Seq<u8>)
    requires
        0 <= p,
        bytes.len() <= u32::MAX,
        p + 4 + bytes.len() <= s.len(),
        s.subrange(p, p + 4 + bytes.len()) == len_prefixed(bytes),
    ensures
        bytes_at(s, p) == Some((bytes, p + 4 + bytes.len())),
{
    lemma_le_lengths(0, bytes.len() as u32, 0);
    assert(s.subrange(p, p + 4) =~= s.subrange(p, p + 4 + bytes.len()).subrange(0, 4));
    assert(len_prefixed(bytes).subrange(0, 4) =~= le32(bytes.len() as u32));
    lemma_u32_at(s, p, bytes.len() as u32);
    assert(s.subrange(p + 4, p + 4 + bytes.len()) =~= s.subrange(p, p + 4 + bytes.len()).subrange(
        4,
        4 + bytes.len() as int,
    ));
    assert(len_prefixed(bytes).subrange(4, 4 + bytes.len() as int) =~= bytes);
}

pub open spec fn fnv_step(hash: u32, byte: u8) -> u32 {
    vstd::wrapping::u32_specs::wrapping_mul(hash ^ (byte as u32), 0x0100_0193)
}

/// 32-bit FNV-1a hash of a byte string.
pub open spec fn checksum_spec(bytes: Seq<u8>) -> u32
    decreases bytes.len(),
{
    if bytes.len() == 0 {
        0x811c_9dc5
    } else {
        fnv_step(checksum_spec(bytes.drop_last()), bytes.last())
    }
}

/// 32-bit FNV-1a hash of `bytes`.
pub fn checksum(bytes: &[u8]) -> (r: u32)
    ensures
        r == checksum_spec(bytes@),
{
    let mut hash: u32 = 0x811c_9dc5;
    let mut i: usize = 0;
    while i < bytes.len()
        invariant
            i <= bytes@.len(),
            hash == checksum_spec(bytes@.take(i as int)),
        decreases bytes@.len() - i,
    {
        proof {
            assert(bytes@.take(i + 1).drop_last() =~= bytes@.take(i as int));
        }
        hash = (hash ^ (bytes[i] as u32)).wrapping_mul(0x0100_0193);
        i = i + 1;
    }
    proof {
        assert(bytes@.take(bytes@.len() as int) =~= bytes@);
    }
    hash
}

pub fn put_u8(out: &mut Vec<u8>, value: u8)
    ensures
        final(out)@ == old(out)@.push(value),
{
    out.push(value);
}

pub fn put_u16(out: &mut Vec<u8>, value: u16)
    ensures
        final(out)@ == old(out)@ + le16(value),
{
    let bytes = vstd::bytes::u16_to_le_bytes(value);
    crate::bytes::append_bytes(out, bytes.as_slice());
}

pub fn put_u32(out: &mut Vec<u8>, value: u32)
    ensures
        final(out)@ == old(out)@ + le32(value),
{
    let bytes = vstd::bytes::u32_to_le_bytes(value);
    crate::bytes::append_bytes(out, bytes.as_slice());
}

pub fn put_u64(out: &mut Vec<u8>, value: u64)
    ensures
        final(out)@ == old(out)@ + le64(value),
{
    let bytes = vstd::bytes::u64_to_le_bytes(value);
    crate::bytes::append_bytes(out, bytes.as_slice());
}

/// Appends `value` with a `u32` length prefix; fails, leaving `out`
/// unchanged, when the value is longer than `u32::MAX` bytes.
pub fn put_bytes(out: &mut Vec<u8>, value: &[u8], too_long: &str) -> (r: Result<()>)
    ensures
        r is Ok <==> value@.len() <= u32::MAX,
        r is Ok ==> final(out)@ == old(out)@ + len_prefixed(value@),
        r matches Err(e) ==> final(out)@ == old(out)@ && e.kind() == ErrorKind::InvalidOptions,
{
    if value.len() > 0xffff_ffff {
        return Err(Error::invalid_options(too_long));
    }
    put_u32(out, value.len() as u32);
    crate::bytes::append_bytes(out, value);
    proof {
        assert(final(out)@ =~= old(out)@ + len_prefixed(value@));
    }
    Ok(())
}

/// What a read from a cursor did: on success the value read and the cursor
/// moved past it; on failure the cursor left where it was.
pub open spec fn read_result<T>(spec: Option<(T, int)>, r: Option<T>, old_pos: int, new_pos: int) -> bool {
    match spec {
        Some((v, q)) => r == Some(v) && new_pos == q,
        None => r is None && new_pos == old_pos,
    }
}

/// Reads fields from a byte payload front to back.
pub struct Cursor<'a> {
    payload: &'a [u8],
    offset: usize,
}

impl<'a> Cursor<'a> {
    pub closed spec fn data(&self) -> Seq<u8> {
        self.payload@
    }

    pub closed spec fn pos(&self) -> int {
        self.offset as int
    }

    /// The position lies within the data.
    pub open spec fn valid(&self) -> bool {
        0 <= self.pos() <= self.data().len()
    }

    pub fn new(payload: &'a [u8]) -> (r: Self)
        ensures
            r.valid(),
            r.data() == payload@,
            r.pos() == 0,
    {
        Self { payload, offset: 0 }
    }

    pub fn offset(&self) -> (r: usize)
        ensures
            r == self.pos(),
    {
        self.offset
    }

    pub fn remaining_len(&self) -> (r: usize)
        requires
            self.valid(),
        ensures
            r == self.data().len() - self.pos(),
    {
        self.payload.len() - self.offset
    }

    pub fn is_finished(&self) -> (r: bool)
        ensures
            r == (self.pos() == self.data().len()),
    {
        self.offset == self.payload.len()
    }

    pub fn read_exact(&mut self, len: usize) -> (r: Option<&'a [u8]>)
        requires
            old(self).valid(),
        ensures
            final(self).valid(),
            final(self).data() == old(self).data(),
            match take_at(old(self).data(), old(self).pos(), len as int) {
                Some((v, q)) => r matches Some(bytes) && bytes@ == v && final(self).pos() == q,
                None => r is None && final(self).pos() == old(self).pos(),
            },
    {
        if len > self.payload.len() - self.offset {
            return None;
        }
        let bytes = vstd::slice::slice_subrange(self.payload, self.offset, self.offset + len);
        self.offset = self.offset + len;
        Some(bytes)
    }

    pub fn read_u8(&mut self) -> (r: Option<u8>)
        requires
            old(self).valid(),
        ensures
            final(self).valid(),
            final(self).data() == old(self).data(),
            read_result(u8_at(old(self).data(), old(self).pos()), r, old(self).pos(), final(self).pos()),
    {
        if self.offset >= self.payload.len() {
            return None;
        }
        let value = self.payload[self.offset];
        self.offset = self.offset + 1;
        Some(value)
    }

    pub fn read_u16(&mut self) -> (r: Option<u16>)
        requires
            old(self).valid(),
        ensures
            final(self).valid(),
            final(self).data() == old(self).data(),
            read_result(u16_at(old(self).data(), old(self).pos()), r, old(self).pos(), final(self).pos()),
    {
        match self.read_exact(2) {
            Some(bytes) => Some(vstd::bytes::u16_from_le_bytes(bytes)),
            None => None,
        }
    }

    pub fn read_u32(&mut self) -> (r: Option<u32>)
        requires
            old(self).valid(),
        ensures
            final(self).valid(),
            final(self).data() == old(self).data(),
            read_result(u32_at(old(self).data(), old(self).pos()), r, old(self).pos(), final(self).pos()),
    {
        match self.read_exact(4) {
            Some(bytes) => Some(vstd::bytes::u32_from_le_bytes(bytes)),
            None => None,
        }
    }

    pub fn read_u64(&mut self) -> (r: Option<u64>)
        requires
            old(self).valid(),
        ensures
            final(self).valid(),
            final(self).data() == old(self).data(),
            read_result(u64_at(old(self).data(), old(self).pos()), r, old(self).pos(), final(self).pos()),
    {
        match self.read_exact(8) {
            Some(bytes) => Some(vstd::bytes::u64_from_le_bytes(bytes)),
            None => None,
        }
    }

    /// Reads a `u32` length and that many bytes. On failure the cursor may
    /// have moved past the length.
    pub fn read_bytes(&mut self) -> (r: Option<&'a [u8]>)
        requires
            old(self).valid(),
        ensures
            final(self).valid(),
            final(self).data() == old(self).data(),
            match bytes_at(old(self).data(), old(self).pos()) {
                Some((v, q)) => r matches Some(bytes) && bytes@ == v && final(self).pos() == q,
                None => r is None,
            },
    {
        let len = match self.read_u32() {
            Some(len) => len,
            None => return None,
        };
        self.read_exact(len as usize)
    }
}

} // verus!
