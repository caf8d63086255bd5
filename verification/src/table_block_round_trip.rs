//! Reading back a data block gives the records written, with a restart
//! point at every sixteenth record.

use vstd::prelude::*;
use crate::blob::{BlobIndex, ValueRefView};
use crate::blob_format::{codec_of_tag, codec_tag, key_bytes, kind_of_tag, kind_tag, Fault};
use crate::blob_round_trip::{key_len, lemma_key_len};
use crate::internal_key::InternalKeyView;
use crate::manifest_round_trip::{at, lemma_at_split};
use crate::table_block::{
    blob_index_bytes, data_block_bytes, data_block_fits, data_block_spec, offset_index, record_bytes, record_fits,
    record_offset, records_bytes, restart_indices_for, restart_offsets, t_blob_index, t_bytes, t_codec, t_key,
    t_records, t_restarts, t_u32, t_u64, t_u8, t_value, u32s_bytes, value_bytes, PointRecordView,
    DATA_BLOCK_RESTART_INTERVAL, MIN_DATA_RECORD_BYTES, RESTART_POINT_BYTES,
};
use crate::wire::{le32, le64, len_prefixed, lemma_le_lengths, lemma_u32_at, lemma_u64_at};

verus! {

proof fn lemma_t_u8(s: Seq<u8>, p: int, v: u8)
    requires
        at(s, p, seq![v]),
    ensures
        t_u8(s, p) == Ok::<(u8, int), Fault>((v, p + 1)),
{
    assert(s[p] == s.subrange(p, p + 1)[0]);
}

proof fn lemma_t_u32(s: Seq<u8>, p: int, v: u32)
    requires
        at(s, p, le32(v)),
    ensures
        t_u32(s, p) == Ok::<(u32, int), Fault>((v, p + 4)),
{
    lemma_le_lengths(0, v, 0);
    lemma_u32_at(s, p, v);
}

proof fn lemma_t_u64(s: Seq<u8>, p: int, v: u64)
    requires
        at(s, p, le64(v)),
    ensures
        t_u64(s, p) == Ok::<(u64, int), Fault>((v, p + 8)),
{
    lemma_le_lengths(0, 0, v);
    lemma_u64_at(s, p, v);
}

proof fn lemma_t_bytes(s: Seq<u8>, p: int, b: Seq<u8>)
    requires
        b.len() <= u32::MAX,
        at(s, p, len_prefixed(b)),
    ensures
        len_prefixed(b).len() == 4 + b.len(),
        t_bytes(s, p) == Ok::<(Seq<u8>, int), Fault>((b, p + 4 + b.len())),
{
    lemma_le_lengths(0, b.len() as u32, 0);
    lemma_at_split(s, p, le32(b.len() as u32), b);
    lemma_t_u32(s, p, b.len() as u32);
}

#[verifier::spinoff_prover]
#[verifier::rlimit(40)]
proof fn lemma_t_key(s: Seq<u8>, p: int, k: InternalKeyView)
    requires
        k.user_key.len() <= u32::MAX,
        at(s, p, key_bytes(k)),
    ensures
        key_bytes(k).len() == key_len(k),
        t_key(s, p) == Ok::<(InternalKeyView, int), Fault>((k, p + key_len(k))),
{
    lemma_key_len(k);
    lemma_le_lengths(0, k.batch_index, k.sequence);
    let lp = len_prefixed(k.user_key);
    let a = lp + le64(k.sequence);
    let b = a + seq![kind_tag(k.kind)];
    assert(key_bytes(k) == b + le32(k.batch_index));
    lemma_at_split(s, p, b, le32(k.batch_index));
    lemma_at_split(s, p, a, seq![kind_tag(k.kind)]);
    lemma_at_split(s, p, lp, le64(k.sequence));
    lemma_t_bytes(s, p, k.user_key);
    let p1 = p + lp.len();
    lemma_t_u64(s, p1, k.sequence);
    lemma_t_u8(s, p1 + 8, kind_tag(k.kind));
    lemma_t_u32(s, p1 + 9, k.batch_index);
    assert(kind_of_tag(kind_tag(k.kind)) == Some(k.kind));
}

#[verifier::spinoff_prover]
#[verifier::rlimit(40)]
proof fn lemma_t_blob_index(s: Seq<u8>, p: int, i: BlobIndex)
    requires
        at(s, p, blob_index_bytes(i)),
    ensures
        blob_index_bytes(i).len() == 41,
        t_blob_index(s, p) == Ok::<(BlobIndex, int), Fault>((i, p + 41)),
{
    lemma_le_lengths(0, i.value_checksum, i.file_id);
    lemma_le_lengths(0, i.record_checksum, i.offset);
    lemma_le_lengths(0, 0, i.encoded_len);
    lemma_le_lengths(0, 0, i.value_len);
    let x0 = le64(i.file_id);
    let x1 = x0 + le64(i.offset);
    let x2 = x1 + le64(i.encoded_len);
    let x3 = x2 + le64(i.value_len);
    let x4 = x3 + le32(i.value_checksum);
    let x5 = x4 + le32(i.record_checksum);
    assert(blob_index_bytes(i) == x5 + seq![codec_tag(i.compression)]);
    lemma_at_split(s, p, x5, seq![codec_tag(i.compression)]);
    lemma_at_split(s, p, x4, le32(i.record_checksum));
    lemma_at_split(s, p, x3, le32(i.value_checksum));
    lemma_at_split(s, p, x2, le64(i.value_len));
    lemma_at_split(s, p, x1, le64(i.encoded_len));
    lemma_at_split(s, p, x0, le64(i.offset));
    lemma_t_u64(s, p, i.file_id);
    lemma_t_u64(s, p + 8, i.offset);
    lemma_t_u64(s, p + 16, i.encoded_len);
    lemma_t_u64(s, p + 24, i.value_len);
    lemma_t_u32(s, p + 32, i.value_checksum);
    lemma_t_u32(s, p + 36, i.record_checksum);
    lemma_t_u8(s, p + 40, codec_tag(i.compression));
    assert(codec_of_tag(codec_tag(i.compression)) == Some(i.compression));
}

#[verifier::spinoff_prover]
#[verifier::rlimit(40)]
proof fn lemma_t_value(s: Seq<u8>, p: int, v: Option<ValueRefView>)
    requires
        match v {
            Some(ValueRefView::Inline(bytes)) => bytes.len() <= u32::MAX,
            _ => true,
        },
        at(s, p, value_bytes(v)),
    ensures
        value_bytes(v).len() >= 1,
        t_value(s, p) == Ok::<(Option<ValueRefView>, int), Fault>((v, p + value_bytes(v).len())),
{
    match v {
        None => lemma_t_u8(s, p, 0),
        Some(ValueRefView::Inline(bytes)) => {
            lemma_le_lengths(0, bytes.len() as u32, 0);
            lemma_at_split(s, p, seq![1u8], len_prefixed(bytes));
            lemma_t_u8(s, p, 1);
            lemma_t_bytes(s, p + 1, bytes);
        },
        Some(ValueRefView::Blob { file_id, offset, len, checksum }) => {
            lemma_le_lengths(0, checksum, file_id);
            lemma_le_lengths(0, 0, offset);
            lemma_le_lengths(0, 0, len);
            let x0 = seq![2u8];
            let x1 = x0 + le64(file_id);
            let x2 = x1 + le64(offset);
            let x3 = x2 + le64(len);
            assert(value_bytes(v) == x3 + le32(checksum));
            lemma_at_split(s, p, x3, le32(checksum));
            lemma_at_split(s, p, x2, le64(len));
            lemma_at_split(s, p, x1, le64(offset));
            lemma_at_split(s, p, x0, le64(file_id));
            lemma_t_u8(s, p, 2);
            lemma_t_u64(s, p + 1, file_id);
            lemma_t_u64(s, p + 9, offset);
            lemma_t_u64(s, p + 17, len);
            lemma_t_u32(s, p + 25, checksum);
        },
        Some(ValueRefView::BlobIndex(index)) => {
            lemma_at_split(s, p, seq![3u8], blob_index_bytes(index));
            lemma_t_u8(s, p, 3);
            lemma_t_blob_index(s, p + 1, index);
        },
    }
}

/// A record written at `p` reads back: its key, then its value.
proof fn lemma_t_record(s: Seq<u8>, p: int, r: PointRecordView)
    requires
        record_fits(r),
        at(s, p, record_bytes(r)),
    ensures
        record_bytes(r).len() >= MIN_DATA_RECORD_BYTES,
        record_bytes(r).len() == key_len(r.key) + value_bytes(r.value).len(),
        t_key(s, p) == Ok::<(InternalKeyView, int), Fault>((r.key, p + key_len(r.key))),
        t_value(s, p + key_len(r.key)) == Ok::<(Option<ValueRefView>, int), Fault>(
            (r.value, p + record_bytes(r).len()),
        ),
{
    lemma_key_len(r.key);
    lemma_at_split(s, p, key_bytes(r.key), value_bytes(r.value));
    lemma_t_key(s, p, r.key);
    lemma_t_value(s, p + key_len(r.key), r.value);
}

proof fn lemma_records_step(rs: Seq<PointRecordView>, k: int)
    requires
        0 <= k < rs.len(),
    ensures
        records_bytes(rs.take(k + 1)) == records_bytes(rs.take(k)) + record_bytes(rs[k]),
{
    assert(rs.take(k + 1).drop_last() =~= rs.take(k));
}

/// The bytes of the first records start the bytes of all of them.
proof fn lemma_records_prefix(rs: Seq<PointRecordView>, k: int)
    requires
        0 <= k <= rs.len(),
    ensures
        records_bytes(rs.take(k)).len() <= records_bytes(rs).len(),
        records_bytes(rs).subrange(0, records_bytes(rs.take(k)).len() as int) == records_bytes(rs.take(k)),
    decreases rs.len(),
{
    if k == rs.len() {
        assert(rs.take(k) =~= rs);
        assert(records_bytes(rs).subrange(0, records_bytes(rs).len() as int) =~= records_bytes(rs));
    } else {
        let dl = rs.drop_last();
        lemma_records_prefix(dl, k);
        assert(dl.take(k) =~= rs.take(k));
        let a = records_bytes(dl);
        let b = record_bytes(rs.last());
        assert(records_bytes(rs) == a + b);
        assert((a + b).subrange(0, records_bytes(rs.take(k)).len() as int) =~= a.subrange(
            0,
            records_bytes(rs.take(k)).len() as int,
        ));
    }
}

/// Records that fit read back one after the other, each at its offset.
proof fn lemma_t_records(s: Seq<PointRecordView>, bytes: Seq<u8>, k: int)
    requires
        forall|i: int| 0 <= i < s.len() ==> record_fits(#[trigger] s[i]),
        at(bytes, 4, records_bytes(s)),
        0 <= k <= s.len(),
    ensures
        t_records(bytes, 4, k as nat) == Ok::<(Seq<PointRecordView>, Seq<int>, int), Fault>(
            (s.take(k), Seq::new(k as nat, |i: int| record_offset(s, i)), record_offset(s, k)),
        ),
    decreases k,
{
    if k == 0 {
        assert(s.take(0) =~= Seq::<PointRecordView>::empty());
        assert(Seq::new(0, |i: int| record_offset(s, i)) =~= Seq::<int>::empty());
        assert(records_bytes(s.take(0)) =~= Seq::<u8>::empty());
    } else {
        lemma_t_records(s, bytes, k - 1);
        lemma_records_prefix(s, k);
        lemma_records_step(s, k - 1);
        let before = records_bytes(s.take(k - 1));
        let r = s[k - 1];
        assert(at(bytes, 4, before + record_bytes(r))) by {
            assert(bytes.subrange(4, 4 + records_bytes(s.take(k)).len() as int) =~= records_bytes(s).subrange(
                0,
                records_bytes(s.take(k)).len() as int,
            ));
        }
        lemma_at_split(bytes, 4, before, record_bytes(r));
        lemma_t_record(bytes, 4 + before.len() as int, r);
        assert(s.take(k - 1).push(r) =~= s.take(k));
        assert(Seq::new((k - 1) as nat, |i: int| record_offset(s, i)).push(record_offset(s, k - 1)) =~= Seq::new(
            k as nat,
            |i: int| record_offset(s, i),
        ));
    }
}

/// Each record moves the next offset on by at least the least record size.
proof fn lemma_offsets_grow(s: Seq<PointRecordView>, i: int, j: int)
    requires
        forall|t: int| 0 <= t < s.len() ==> record_fits(#[trigger] s[t]),
        0 <= i <= j <= s.len(),
    ensures
        record_offset(s, j) >= record_offset(s, i) + MIN_DATA_RECORD_BYTES * (j - i),
    decreases j - i,
{
    if i < j {
        lemma_offsets_grow(s, i, j - 1);
        lemma_records_step(s, j - 1);
        lemma_key_len(s[j - 1].key);
        let v = s[j - 1].value;
        match v {
            Some(ValueRefView::Inline(bytes)) => lemma_le_lengths(0, bytes.len() as u32, 0),
            _ => {},
        }
        assert(value_bytes(v).len() >= 1);
    }
}

proof fn lemma_offset_index_absent(offsets: Seq<int>, x: int)
    requires
        forall|i: int| 0 <= i < offsets.len() ==> offsets[i] != x,
    ensures
        offset_index(offsets, x) == -1,
    decreases offsets.len(),
{
    if offsets.len() > 0 {
        lemma_offset_index_absent(offsets.drop_last(), x);
    }
}

/// In growing offsets an offset is found at its own index.
proof fn lemma_offset_index_unique(offsets: Seq<int>, i: int)
    requires
        forall|a: int, b: int| 0 <= a < b < offsets.len() ==> offsets[a] < offsets[b],
        0 <= i < offsets.len(),
    ensures
        offset_index(offsets, offsets[i]) == i,
    decreases offsets.len(),
{
    let dl = offsets.drop_last();
    if i == offsets.len() - 1 {
        lemma_offset_index_absent(dl, offsets[i]);
    } else {
        lemma_offset_index_unique(dl, i);
    }
}

proof fn lemma_u32s_step(values: Seq<u32>, k: int)
    requires
        0 <= k < values.len(),
    ensures
        u32s_bytes(values.take(k + 1)) == u32s_bytes(values.take(k)) + le32(values[k]),
{
    assert(values.take(k + 1).drop_last() =~= values.take(k));
}

proof fn lemma_u32s_len(values: Seq<u32>)
    ensures
        u32s_bytes(values).len() == 4 * values.len(),
    decreases values.len(),
{
    if values.len() > 0 {
        lemma_u32s_len(values.drop_last());
        lemma_le_lengths(0, values.last(), 0);
    }
}

proof fn lemma_u32s_prefix(values: Seq<u32>, k: int)
    requires
        0 <= k <= values.len(),
    ensures
        u32s_bytes(values).subrange(0, 4 * k) == u32s_bytes(values.take(k)),
    decreases values.len(),
{
    lemma_u32s_len(values);
    lemma_u32s_len(values.take(k));
    if k == values.len() {
        assert(values.take(k) =~= values);
        assert(u32s_bytes(values).subrange(0, 4 * k) =~= u32s_bytes(values));
    } else {
        let dl = values.drop_last();
        lemma_u32s_prefix(dl, k);
        lemma_u32s_len(dl);
        assert(dl.take(k) =~= values.take(k));
        assert(u32s_bytes(values) == u32s_bytes(dl) + le32(values.last()));
        assert(u32s_bytes(values).subrange(0, 4 * k) =~= u32s_bytes(dl).subrange(0, 4 * k));
    }
}

proof fn lemma_restart_index_bound(n: int, k: int)
    by (nonlinear_arith)
    requires
        0 <= k,
        0 <= n,
        k < (n + 15) / 16,
    ensures
        16 * k < n,
        k * 16 == 16 * k,
{
}

/// The restart offsets written read back as the restart indices.
proof fn lemma_t_restarts(s: Seq<PointRecordView>, bytes: Seq<u8>, p3: int, k: int)
    requires
        data_block_fits(s),
        at(bytes, p3, u32s_bytes(restart_offsets(s))),
        0 <= k <= restart_offsets(s).len(),
    ensures
        t_restarts(bytes, p3, k as nat, Seq::new(s.len(), |i: int| record_offset(s, i)), record_offset(s, s.len() as int))
            == Ok::<(Seq<int>, Seq<u32>, int), Fault>(
            (Seq::new(k as nat, |j: int| j * 16), restart_offsets(s).take(k), p3 + 4 * k),
        ),
    decreases k,
{
    let offs = Seq::new(s.len(), |i: int| record_offset(s, i));
    let restarts = restart_offsets(s);
    let n = s.len() as int;
    if k == 0 {
        assert(Seq::new(0, |j: int| j * 16) =~= Seq::<int>::empty());
        assert(restarts.take(0) =~= Seq::<u32>::empty());
    } else {
        lemma_t_restarts(s, bytes, p3, k - 1);
        lemma_u32s_prefix(restarts, k);
        lemma_u32s_step(restarts, k - 1);
        lemma_u32s_len(restarts.take(k - 1));
        lemma_u32s_len(restarts);
        lemma_le_lengths(0, restarts[k - 1], 0);
        assert(at(bytes, p3, u32s_bytes(restarts.take(k - 1)) + le32(restarts[k - 1]))) by {
            assert(bytes.subrange(p3, p3 + 4 * k) =~= u32s_bytes(restarts).subrange(0, 4 * k));
        }
        lemma_at_split(bytes, p3, u32s_bytes(restarts.take(k - 1)), le32(restarts[k - 1]));
        lemma_t_u32(bytes, p3 + 4 * (k - 1), restarts[k - 1]);
        let idx = (k - 1) * 16;
        lemma_restart_index_bound(n, k - 1);
        assert(restart_indices_for(s.len())[k - 1] == idx);
        assert(record_offset(s, idx) <= u32::MAX);
        assert(restarts[k - 1] == record_offset(s, idx) as u32);
        lemma_offsets_grow(s, idx, n);
        assert(record_offset(s, idx) < record_offset(s, n));
        if k > 1 {
            let prev = (k - 2) * 16;
            assert(restart_indices_for(s.len())[k - 2] == prev);
            lemma_restart_index_bound(n, k - 2);
            assert(record_offset(s, prev) <= u32::MAX);
            lemma_offsets_grow(s, prev, idx);
            assert(restarts.take(k - 1).last() == restarts[k - 2]);
        }
        assert forall|a: int, b: int| 0 <= a < b < offs.len() implies offs[a] < offs[b] by {
            lemma_offsets_grow(s, a, b);
        }
        lemma_offset_index_unique(offs, idx);
        assert(Seq::new((k - 1) as nat, |j: int| j * 16).push(idx) =~= Seq::new(k as nat, |j: int| j * 16));
        assert(restarts.take(k - 1).push(restarts[k - 1]) =~= restarts.take(k));
    }
}

/// Reading the bytes of a data block gives the records written, with a
/// restart point at every sixteenth record.
#[verifier::spinoff_prover]
#[verifier::rlimit(60)]
pub proof fn lemma_data_block_round_trip(s: Seq<PointRecordView>)
    requires
        data_block_fits(s),
    ensures
        data_block_spec(data_block_bytes(s)) == Ok::<(Seq<PointRecordView>, Seq<int>), Fault>(
            (s, restart_indices_for(s.len())),
        ),
{
    let n = s.len() as int;
    let bytes = data_block_bytes(s);
    let rb = records_bytes(s);
    let restarts = restart_offsets(s);
    let m = restarts.len() as int;
    lemma_le_lengths(0, n as u32, 0);
    lemma_le_lengths(0, m as u32, 0);
    lemma_u32s_len(restarts);
    let x0 = le32(n as u32);
    let x1 = x0 + rb;
    let x2 = x1 + le32(m as u32);
    assert(bytes == x2 + u32s_bytes(restarts));
    assert(at(bytes, 0, bytes)) by {
        assert(bytes.subrange(0, bytes.len() as int) =~= bytes);
    }
    lemma_at_split(bytes, 0, x2, u32s_bytes(restarts));
    lemma_at_split(bytes, 0, x1, le32(m as u32));
    lemma_at_split(bytes, 0, x0, rb);
    lemma_t_u32(bytes, 0, n as u32);
    // the record count fits the bytes
    lemma_offsets_grow(s, 0, n);
    assert(s.take(0) =~= Seq::<PointRecordView>::empty());
    assert(records_bytes(s.take(0)) =~= Seq::<u8>::empty());
    assert(s.take(n) =~= s);
    assert(rb.len() >= 18 * n);
    assert(n <= (bytes.len() - 4) / 18);
    // the records
    lemma_t_records(s, bytes, n);
    let p2 = 4 + rb.len() as int;
    assert(record_offset(s, n) == p2);
    lemma_t_u32(bytes, p2, m as u32);
    let p3 = p2 + 4;
    // the restart count
    assert(m == (n + 15) / 16);
    assert(n == 0 <==> m == 0);
    assert(m <= (bytes.len() - p3) / 4);
    lemma_t_restarts(s, bytes, p3, m);
    assert(restarts.take(m) =~= restarts);
    let idxs = Seq::new(m as nat, |j: int| j * 16);
    assert(idxs =~= restart_indices_for(s.len()));
    if m > 0 {
        assert(idxs[0] == 0);
    }
    assert(p3 + 4 * m == bytes.len());
}

} // verus!
