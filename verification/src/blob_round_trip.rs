//! Reading back what the blob encoder writes gives the header, properties
//! and records that were written.

use vstd::prelude::*;
use crate::blob::{
    body_bytes, decode_blob_spec, decode_records_spec, encode_fault, file_bytes, file_record_keys,
    first_problem, frame_bytes, frames, index_of, indexed, keys_in_order, properties_of,
    record_body_spec, record_keys, record_problem, records_from, stored_value, BlobFileView,
    BlobFileRecordView, BlobRecordView, BLOB_HEADER_LEN,
    footer_bytes, footer_fields, footer_spec, header_bytes, header_fields, header_spec,
    lemma_header_len, properties_bytes, properties_fields, properties_spec, BlobFileHeader,
    BlobFilePropertiesView, BLOB_FILE_FORMAT_VERSION, BLOB_FOOTER_LEN, BLOB_FOOTER_MAGIC, BLOB_MAGIC,
};
use crate::blob_format::{codec_of_tag, codec_tag, key_bytes, kind_of_tag, kind_tag, p_key, p_u32, p_u64, Fault};
use crate::codec::block_decoded;
use crate::internal_key::{InternalKeyView, ValueKind};
use crate::types::Sequence;
use crate::wire::{
    checksum_spec, le16, le32, le64, lemma_bytes_at, lemma_le_lengths, lemma_u16_at, lemma_u32_at,
    lemma_u64_at, len_prefixed, take_at, u32_at, u64_at, u8_at,
};

verus! {

/// Splits a known stretch of bytes into its two parts.
pub proof fn lemma_split(s: Seq<u8>, p: int, a: Seq<u8>, b: Seq<u8>)
    requires
        0 <= p,
        p + a.len() + b.len() <= s.len(),
        s.subrange(p, p + a.len() + b.len()) == a + b,
    ensures
        s.subrange(p, p + a.len()) == a,
        s.subrange(p + a.len(), p + a.len() + b.len()) == b,
{
    assert(s.subrange(p, p + a.len()) =~= (a + b).subrange(0, a.len() as int));
    assert(s.subrange(p + a.len(), p + a.len() + b.len()) =~= (a + b).subrange(
        a.len() as int,
        (a.len() + b.len()) as int,
    ));
}

pub proof fn lemma_byte_at(s: Seq<u8>, p: int, v: u8)
    requires
        0 <= p,
        p + 1 <= s.len(),
        s.subrange(p, p + 1) == seq![v],
    ensures
        u8_at(s, p) == Some((v, p + 1)),
{
    assert(s[p] == s.subrange(p, p + 1)[0]);
}

pub open spec fn key_len(k: InternalKeyView) -> int {
    (4 + k.user_key.len() + 8 + 1 + 4) as int
}

pub proof fn lemma_key_len(k: InternalKeyView)
    requires
        k.user_key.len() <= u32::MAX,
    ensures
        key_bytes(k).len() == key_len(k),
{
    lemma_le_lengths(0, k.batch_index, k.sequence);
    lemma_le_lengths(0, k.user_key.len() as u32, 0);
}

/// An internal key written at `p` reads back.
#[verifier::spinoff_prover]
#[verifier::rlimit(40)]
pub proof fn lemma_p_key(s: Seq<u8>, p: int, k: InternalKeyView)
    requires
        0 <= p,
        k.user_key.len() <= u32::MAX,
        p + key_len(k) <= s.len(),
        s.subrange(p, p + key_len(k)) == key_bytes(k),
    ensures
        key_bytes(k).len() == key_len(k),
        p_key(s, p) == Ok::<(InternalKeyView, int), Fault>((k, p + key_len(k))),
{
    lemma_le_lengths(0, k.batch_index, k.sequence);
    lemma_le_lengths(0, k.user_key.len() as u32, 0);
    let lp = len_prefixed(k.user_key);
    let a = lp + le64(k.sequence);
    let b = a + seq![kind_tag(k.kind)];
    assert(key_bytes(k) == b + le32(k.batch_index));
    lemma_split(s, p, b, le32(k.batch_index));
    lemma_split(s, p, a, seq![kind_tag(k.kind)]);
    lemma_split(s, p, lp, le64(k.sequence));
    lemma_bytes_at(s, p, k.user_key);
    let p1 = p + lp.len();
    lemma_u64_at(s, p1, k.sequence);
    let p2 = p1 + 8;
    lemma_byte_at(s, p2, kind_tag(k.kind));
    let p3 = p2 + 1;
    lemma_u32_at(s, p3, k.batch_index);
    assert(kind_of_tag(kind_tag(k.kind)) == Some(k.kind));
}

pub proof fn lemma_p_u64(s: Seq<u8>, p: int, v: u64)
    requires
        0 <= p,
        p + 8 <= s.len(),
        s.subrange(p, p + 8) == le64(v),
    ensures
        p_u64(s, p) == Ok::<(u64, int), Fault>((v, p + 8)),
{
    lemma_u64_at(s, p, v);
}

pub proof fn lemma_p_u32(s: Seq<u8>, p: int, v: u32)
    requires
        0 <= p,
        p + 4 <= s.len(),
        s.subrange(p, p + 4) == le32(v),
    ensures
        p_u32(s, p) == Ok::<(u32, int), Fault>((v, p + 4)),
{
    lemma_u32_at(s, p, v);
}

// ---------------------------------------------------------------- header and footer

#[verifier::spinoff_prover]
#[verifier::rlimit(40)]
pub proof fn lemma_header_round_trip(h: BlobFileHeader)
    ensures
        header_spec(header_bytes(h)) == Ok::<BlobFileHeader, Fault>(h),
{
    let s = header_bytes(h);
    lemma_header_len(h);
    lemma_le_lengths(BLOB_FILE_FORMAT_VERSION, BLOB_MAGIC, h.file_id);
    lemma_le_lengths(0, checksum_spec(header_fields(h)), h.creation_sequence.spec_get());
    lemma_le_lengths(0, 0, h.bucket_options_digest);
    lemma_le_lengths(0, 0, h.blob_threshold_bytes);
    let f0 = le32(BLOB_MAGIC);
    let f1 = f0 + le16(BLOB_FILE_FORMAT_VERSION);
    let f2 = f1 + le64(h.file_id);
    let f3 = f2 + le64(h.creation_sequence.spec_get());
    let f4 = f3 + le64(h.bucket_options_digest);
    let f5 = f4 + le64(h.blob_threshold_bytes);
    let f6 = f5 + seq![codec_tag(h.default_compression)];
    assert(header_fields(h) == f6);
    let cs = le32(checksum_spec(f6));
    assert(s.subrange(0, s.len() as int) =~= s);
    lemma_split(s, 0, f6, cs);
    lemma_u32_at(s, 39, checksum_spec(f6));
    assert(s.take(39) =~= f6);
    lemma_split(s, 0, f5, seq![codec_tag(h.default_compression)]);
    lemma_split(s, 0, f4, le64(h.blob_threshold_bytes));
    lemma_split(s, 0, f3, le64(h.bucket_options_digest));
    lemma_split(s, 0, f2, le64(h.creation_sequence.spec_get()));
    lemma_split(s, 0, f1, le64(h.file_id));
    lemma_split(s, 0, f0, le16(BLOB_FILE_FORMAT_VERSION));
    lemma_u32_at(s, 0, BLOB_MAGIC);
    lemma_u16_at(s, 4, BLOB_FILE_FORMAT_VERSION);
    lemma_u64_at(s, 6, h.file_id);
    lemma_u64_at(s, 14, h.creation_sequence.spec_get());
    lemma_u64_at(s, 22, h.bucket_options_digest);
    lemma_u64_at(s, 30, h.blob_threshold_bytes);
    lemma_byte_at(s, 38, codec_tag(h.default_compression));
    assert(codec_of_tag(codec_tag(h.default_compression)) == Some(h.default_compression));
    Sequence::lemma_from_spec(h.creation_sequence.spec_get());
    Sequence::lemma_sequence_eq(
        Sequence::from_spec(h.creation_sequence.spec_get()),
        h.creation_sequence,
    );
}

#[verifier::spinoff_prover]
#[verifier::rlimit(40)]
pub proof fn lemma_footer_round_trip(offset: u64, len: u64)
    ensures
        footer_bytes(offset, len).len() == BLOB_FOOTER_LEN,
        footer_spec(footer_bytes(offset, len)) == Ok::<(u64, u64), Fault>((offset, len)),
{
    let f = footer_fields(offset, len);
    let s = footer_bytes(offset, len);
    lemma_le_lengths(0, checksum_spec(f), offset);
    lemma_le_lengths(0, BLOB_FOOTER_MAGIC, len);
    let a = f + le32(checksum_spec(f));
    assert(s == a + le32(BLOB_FOOTER_MAGIC));
    assert(s.subrange(0, s.len() as int) =~= s);
    lemma_split(s, 0, a, le32(BLOB_FOOTER_MAGIC));
    lemma_split(s, 0, f, le32(checksum_spec(f)));
    lemma_split(s, 0, le64(offset), le64(len));
    lemma_u32_at(s, 20, BLOB_FOOTER_MAGIC);
    lemma_u32_at(s, 16, checksum_spec(f));
    assert(s.take(16) =~= f);
    lemma_u64_at(s, 0, offset);
    lemma_u64_at(s, 8, len);
}

// ---------------------------------------------------------------- properties

#[verifier::spinoff_prover]
#[verifier::rlimit(40)]
proof fn lemma_properties_fields(p: BlobFilePropertiesView)
    requires
        p.smallest_internal_key.user_key.len() <= u32::MAX,
        p.largest_internal_key.user_key.len() <= u32::MAX,
    ensures
        crate::blob::properties_fields_spec(properties_fields(p)) == Ok::<BlobFilePropertiesView, Fault>(p),
{
    let f = properties_fields(p);
    lemma_le_lengths(0, 0, p.record_count);
    lemma_le_lengths(0, 0, p.value_bytes);
    lemma_le_lengths(0, 0, p.encoded_bytes);
    lemma_le_lengths(0, 0, p.compression_saved_bytes);
    lemma_le_lengths(0, 0, p.smallest_sequence);
    lemma_le_lengths(0, 0, p.largest_sequence);
    let ks = key_bytes(p.smallest_internal_key);
    let kl = key_bytes(p.largest_internal_key);
    lemma_key_len(p.smallest_internal_key);
    lemma_key_len(p.largest_internal_key);
    let g0 = le64(p.record_count);
    let g1 = g0 + le64(p.value_bytes);
    let g2 = g1 + le64(p.encoded_bytes);
    let g3 = g2 + le64(p.compression_saved_bytes);
    let g4 = g3 + ks;
    let g5 = g4 + kl;
    let g6 = g5 + le64(p.smallest_sequence);
    assert(f == g6 + le64(p.largest_sequence));
    assert(f.subrange(0, f.len() as int) =~= f);
    lemma_split(f, 0, g6, le64(p.largest_sequence));
    lemma_split(f, 0, g5, le64(p.smallest_sequence));
    lemma_split(f, 0, g4, kl);
    lemma_split(f, 0, g3, ks);
    lemma_split(f, 0, g2, le64(p.compression_saved_bytes));
    lemma_split(f, 0, g1, le64(p.encoded_bytes));
    lemma_split(f, 0, g0, le64(p.value_bytes));
    lemma_p_u64(f, 0, p.record_count);
    lemma_p_u64(f, 8, p.value_bytes);
    lemma_p_u64(f, 16, p.encoded_bytes);
    lemma_p_u64(f, 24, p.compression_saved_bytes);
    lemma_p_key(f, 32, p.smallest_internal_key);
    lemma_p_key(f, g4.len() as int, p.largest_internal_key);
    lemma_p_u64(f, g5.len() as int, p.smallest_sequence);
    lemma_p_u64(f, g6.len() as int, p.largest_sequence);
}

#[verifier::spinoff_prover]
#[verifier::rlimit(40)]
pub proof fn lemma_properties_round_trip(p: BlobFilePropertiesView)
    requires
        p.smallest_internal_key.user_key.len() <= u32::MAX,
        p.largest_internal_key.user_key.len() <= u32::MAX,
    ensures
        properties_spec(properties_bytes(p)) == Ok::<BlobFilePropertiesView, Fault>(p),
{
    let s = properties_bytes(p);
    let f = properties_fields(p);
    lemma_le_lengths(0, checksum_spec(f), 0);
    assert(s.subrange(0, s.len() as int) =~= s);
    lemma_split(s, 0, f, le32(checksum_spec(f)));
    lemma_u32_at(s, s.len() - 4, checksum_spec(f));
    assert(s.take(s.len() - 4) =~= f);
    lemma_properties_fields(p);
}

// ---------------------------------------------------------------- records

proof fn lemma_frames_step(rs: Seq<BlobRecordView>, k: int)
    requires
        0 <= k < rs.len(),
    ensures
        frames(rs.take(k + 1)) == frames(rs.take(k)) + frame_bytes(rs[k]),
{
    assert(rs.take(k + 1).drop_last() =~= rs.take(k));
    assert(rs.take(k + 1).last() == rs[k]);
}

proof fn lemma_frames_prefix(rs: Seq<BlobRecordView>, k: int)
    requires
        0 <= k <= rs.len(),
    ensures
        frames(rs.take(k)).len() <= frames(rs).len(),
        frames(rs).subrange(0, frames(rs.take(k)).len() as int) == frames(rs.take(k)),
    decreases rs.len() - k,
{
    if k == rs.len() {
        assert(rs.take(k) =~= rs);
        assert(frames(rs).subrange(0, frames(rs).len() as int) =~= frames(rs));
    } else {
        lemma_frames_prefix(rs, k + 1);
        lemma_frames_step(rs, k);
        let a = frames(rs.take(k));
        let b = frames(rs.take(k + 1));
        assert(frames(rs).subrange(0, a.len() as int) =~= b.subrange(0, a.len() as int));
        assert(b.subrange(0, a.len() as int) =~= a);
    }
}

/// The records that can be written each read back from their body.
pub open spec fn records_readable(rs: Seq<BlobRecordView>) -> bool {
    forall|i: int|
        0 <= i < rs.len() ==> {
            &&& record_problem(#[trigger] rs[i]) is None
            &&& block_decoded(rs[i].compression, stored_value(rs[i]), rs[i].value.len()) == Some(rs[i].value)
            &&& rs[i].value.len() <= usize::MAX
            &&& stored_value(rs[i]).len() <= usize::MAX
        }
}

#[verifier::spinoff_prover]
#[verifier::rlimit(40)]
proof fn lemma_body_round_trip(file_id: u64, rs: Seq<BlobRecordView>, i: int)
    requires
        0 <= i < rs.len(),
        records_readable(rs),
    ensures
        record_body_spec(
            file_id,
            index_of(file_id, rs, i).offset,
            checksum_spec(body_bytes(rs[i])),
            body_bytes(rs[i]),
        ) == Ok::<BlobFileRecordView, Fault>(indexed(file_id, rs)[i]),
{
    let r = rs[i];
    let k = r.key;
    let stored = stored_value(r);
    let b = body_bytes(r);
    lemma_key_len(k);
    lemma_le_lengths(0, checksum_spec(r.value), r.value.len() as u64);
    lemma_le_lengths(0, 0, stored.len() as u64);
    let kb = key_bytes(k);
    let a1 = kb + le64(r.value.len() as u64);
    let a2 = a1 + le64(stored.len() as u64);
    let a3 = a2 + seq![codec_tag(r.compression)];
    let a4 = a3 + le32(checksum_spec(r.value));
    assert(b == a4 + stored);
    assert(b.subrange(0, b.len() as int) =~= b);
    lemma_split(b, 0, a4, stored);
    lemma_split(b, 0, a3, le32(checksum_spec(r.value)));
    lemma_split(b, 0, a2, seq![codec_tag(r.compression)]);
    lemma_split(b, 0, a1, le64(stored.len() as u64));
    lemma_split(b, 0, kb, le64(r.value.len() as u64));
    lemma_p_key(b, 0, k);
    lemma_p_u64(b, kb.len() as int, r.value.len() as u64);
    lemma_p_u64(b, a1.len() as int, stored.len() as u64);
    lemma_byte_at(b, a2.len() as int, codec_tag(r.compression));
    assert(codec_of_tag(codec_tag(r.compression)) == Some(r.compression));
    lemma_p_u32(b, a3.len() as int, checksum_spec(r.value));
    assert(take_at(b, a4.len() as int, stored.len() as int) == Some((stored, b.len() as int)));
}

/// Where record `k`'s frame lies in the record area, and what its fields
/// read.
#[verifier::spinoff_prover]
#[verifier::rlimit(40)]
proof fn lemma_frame_at(rs: Seq<BlobRecordView>, k: int)
    requires
        0 <= k < rs.len(),
        BLOB_HEADER_LEN + frames(rs).len() <= usize::MAX,
    ensures
        ({
            let s = frames(rs);
            let p = frames(rs.take(k)).len() as int;
            let q = frames(rs.take(k + 1)).len() as int;
            let body = body_bytes(rs[k]);
            &&& q <= s.len()
            &&& q == p + 12 + body.len()
            &&& u64_at(s, p) == Some((body.len() as u64, p + 8))
            &&& u32_at(s, p + 8) == Some((checksum_spec(body), p + 12))
            &&& take_at(s, p + 12, body.len() as int) == Some((body, q))
        }),
{
    let s = frames(rs);
    lemma_frames_prefix(rs, k);
    lemma_frames_prefix(rs, k + 1);
    lemma_frames_step(rs, k);
    let p = frames(rs.take(k)).len() as int;
    let r = rs[k];
    let body = body_bytes(r);
    let f = frame_bytes(r);
    lemma_le_lengths(0, checksum_spec(body), body.len() as u64);
    let q = frames(rs.take(k + 1)).len() as int;
    assert(s.subrange(p, q) =~= frames(rs.take(k + 1)).subrange(p, q));
    assert(frames(rs.take(k + 1)).subrange(p, q) =~= f);
    let h8 = le64(body.len() as u64);
    let h12 = h8 + le32(checksum_spec(body));
    assert(f == h12 + body);
    lemma_split(s, p, h12, body);
    lemma_split(s, p, h8, le32(checksum_spec(body)));
    lemma_u64_at(s, p, body.len() as u64);
    lemma_u32_at(s, p + 8, checksum_spec(body));
}

#[verifier::spinoff_prover]
#[verifier::rlimit(40)]
proof fn lemma_records_from(file_id: u64, rs: Seq<BlobRecordView>, k: int)
    requires
        0 <= k <= rs.len(),
        records_readable(rs),
        BLOB_HEADER_LEN + frames(rs).len() <= usize::MAX,
    ensures
        records_from(file_id, frames(rs), frames(rs.take(k)).len() as int) == Ok::<Seq<BlobFileRecordView>, Fault>(
            indexed(file_id, rs).skip(k),
        ),
    decreases rs.len() - k,
{
    let s = frames(rs);
    lemma_frames_prefix(rs, k);
    let p = frames(rs.take(k)).len() as int;
    if k == rs.len() {
        assert(rs.take(k) =~= rs);
        assert(indexed(file_id, rs).skip(k) =~= Seq::<BlobFileRecordView>::empty());
    } else {
        lemma_frame_at(rs, k);
        lemma_body_round_trip(file_id, rs, k);
        lemma_records_from(file_id, rs, k + 1);
        let body = body_bytes(rs[k]);
        let q = frames(rs.take(k + 1)).len() as int;
        assert(index_of(file_id, rs, k).offset == (p + BLOB_HEADER_LEN) as u64);
        assert(records_from(file_id, s, p) == Ok::<Seq<BlobFileRecordView>, Fault>(
            seq![indexed(file_id, rs)[k]] + indexed(file_id, rs).skip(k + 1),
        ));
        assert(seq![indexed(file_id, rs)[k]] + indexed(file_id, rs).skip(k + 1) =~= indexed(
            file_id,
            rs,
        ).skip(k));
    }
}

proof fn lemma_no_problem(rs: Seq<BlobRecordView>, i: int)
    requires
        0 <= i <= rs.len(),
        first_problem(rs, i) is None,
    ensures
        forall|j: int| i <= j < rs.len() ==> (#[trigger] record_problem(rs[j])) is None,
    decreases rs.len() - i,
{
    if i < rs.len() {
        lemma_no_problem(rs, i + 1);
    }
}

/// What a blob file decodes to after it was written from `h` and `rs`.
pub open spec fn written_file(h: BlobFileHeader, rs: Seq<BlobRecordView>) -> BlobFileView {
    BlobFileView {
        header: h,
        properties: properties_of(indexed(h.file_id, rs)),
        records: indexed(h.file_id, rs),
    }
}

/// The records that can be written.
pub open spec fn writable(rs: Seq<BlobRecordView>) -> bool {
    &&& encode_fault(rs) is None
    &&& forall|i: int|
        0 <= i < rs.len() ==> block_decoded(
            (#[trigger] rs[i]).compression,
            stored_value(rs[i]),
            rs[i].value.len(),
        ) == Some(rs[i].value)
    &&& forall|i: int| 0 <= i < rs.len() ==> (#[trigger] rs[i]).value.len() <= usize::MAX
}

#[verifier::spinoff_prover]
#[verifier::rlimit(40)]
proof fn lemma_records_part(h: BlobFileHeader, rs: Seq<BlobRecordView>)
    requires
        writable(rs),
        file_bytes(h, rs).len() <= usize::MAX,
    ensures
        ({
            let head = header_bytes(h) + frames(rs);
            decode_records_spec(h.file_id, file_bytes(h, rs).subrange(BLOB_HEADER_LEN as int, head.len() as int))
                == Ok::<Seq<BlobFileRecordView>, Fault>(indexed(h.file_id, rs))
        }),
{
    let idx = indexed(h.file_id, rs);
    let head = header_bytes(h) + frames(rs);
    let b = file_bytes(h, rs);
    lemma_no_problem(rs, 0);
    lemma_header_len(h);
    assert forall|i: int| 0 <= i < rs.len() implies stored_value(#[trigger] rs[i]).len() <= usize::MAX by {
        lemma_frames_prefix(rs, i + 1);
        lemma_frames_step(rs, i);
    }
    assert(records_readable(rs));
    assert(b.subrange(BLOB_HEADER_LEN as int, head.len() as int) =~= frames(rs));
    assert(rs.take(0) =~= Seq::<BlobRecordView>::empty());
    lemma_records_from(h.file_id, rs, 0);
    assert(idx.skip(0) =~= idx);
    assert(file_record_keys(idx) =~= record_keys(rs));
}

proof fn lemma_header_part(h: BlobFileHeader, rs: Seq<BlobRecordView>)
    ensures
        file_bytes(h, rs).len() >= BLOB_HEADER_LEN,
        header_spec(file_bytes(h, rs).take(BLOB_HEADER_LEN as int)) == Ok::<BlobFileHeader, Fault>(h),
{
    let b = file_bytes(h, rs);
    lemma_header_len(h);
    assert(b.take(BLOB_HEADER_LEN as int) =~= header_bytes(h));
    lemma_header_round_trip(h);
}

proof fn lemma_footer_part(h: BlobFileHeader, rs: Seq<BlobRecordView>)
    ensures
        ({
            let head = header_bytes(h) + frames(rs);
            let pb = properties_bytes(properties_of(indexed(h.file_id, rs)));
            let b = file_bytes(h, rs);
            &&& b.len() == head.len() + pb.len() + BLOB_FOOTER_LEN
            &&& footer_spec(b.subrange(b.len() - BLOB_FOOTER_LEN, b.len() as int)) == Ok::<(u64, u64), Fault>(
                (head.len() as u64, pb.len() as u64),
            )
        }),
{
    let head = header_bytes(h) + frames(rs);
    let pb = properties_bytes(properties_of(indexed(h.file_id, rs)));
    let fb = footer_bytes(head.len() as u64, pb.len() as u64);
    let b = file_bytes(h, rs);
    lemma_footer_round_trip(head.len() as u64, pb.len() as u64);
    assert(b.subrange(b.len() - BLOB_FOOTER_LEN, b.len() as int) =~= fb);
}

proof fn lemma_middle(x: Seq<u8>, y: Seq<u8>, z: Seq<u8>)
    ensures
        (x + y + z).subrange(x.len() as int, (x.len() + y.len()) as int) == y,
{
    assert((x + y + z).subrange(x.len() as int, (x.len() + y.len()) as int) =~= y);
}

proof fn lemma_head_len(h: BlobFileHeader, rs: Seq<BlobRecordView>)
    requires
        rs.len() > 0,
    ensures
        (header_bytes(h) + frames(rs)).len() >= BLOB_HEADER_LEN + 12,
{
    lemma_header_len(h);
    lemma_frames_prefix(rs, 1);
    lemma_frames_step(rs, 0);
    assert(rs.take(0) =~= Seq::<BlobRecordView>::empty());
    let body = body_bytes(rs[0]);
    lemma_le_lengths(0, checksum_spec(body), body.len() as u64);
    assert(frame_bytes(rs[0]).len() >= 12);
}

proof fn lemma_keys_fit(h: BlobFileHeader, rs: Seq<BlobRecordView>)
    requires
        writable(rs),
    ensures
        properties_of(indexed(h.file_id, rs)).smallest_internal_key.user_key.len() <= u32::MAX,
        properties_of(indexed(h.file_id, rs)).largest_internal_key.user_key.len() <= u32::MAX,
{
    lemma_no_problem(rs, 0);
    assert(record_problem(rs[0]) is None);
    assert(record_problem(rs[rs.len() - 1]) is None);
}

#[verifier::spinoff_prover]
#[verifier::rlimit(40)]
proof fn lemma_properties_part(h: BlobFileHeader, rs: Seq<BlobRecordView>)
    requires
        writable(rs),
    ensures
        ({
            let head = header_bytes(h) + frames(rs);
            let props = properties_of(indexed(h.file_id, rs));
            let pb = properties_bytes(props);
            let b = file_bytes(h, rs);
            &&& head.len() >= BLOB_HEADER_LEN + 12
            &&& properties_spec(b.subrange(head.len() as int, (head.len() + pb.len()) as int))
                == Ok::<BlobFilePropertiesView, Fault>(props)
        }),
{
    let props = properties_of(indexed(h.file_id, rs));
    let head = header_bytes(h) + frames(rs);
    let pb = properties_bytes(props);
    lemma_head_len(h, rs);
    lemma_keys_fit(h, rs);
    lemma_properties_round_trip(props);
    lemma_middle(head, pb, footer_bytes(head.len() as u64, pb.len() as u64));
}

/// Reading a blob file gives back what was written: the header, the
/// records in order with their indexes, and their properties. It holds for
/// records that can be written (non-empty, in key order, puts with user
/// keys of at most `u32::MAX` bytes) whose stored values decode to the
/// values, and files whose size fits in memory.
#[verifier::spinoff_prover]
#[verifier::rlimit(40)]
pub proof fn lemma_blob_round_trip(h: BlobFileHeader, rs: Seq<BlobRecordView>)
    requires
        writable(rs),
        file_bytes(h, rs).len() <= usize::MAX,
    ensures
        decode_blob_spec(file_bytes(h, rs)) == Ok::<BlobFileView, Fault>(written_file(h, rs)),
{
    lemma_records_part(h, rs);
    lemma_header_part(h, rs);
    lemma_footer_part(h, rs);
    lemma_properties_part(h, rs);
}

} // verus!
