//! Reading back a manifest file gives what was written.

use vstd::prelude::*;
use crate::blob_format::{codec_of_tag, codec_tag, Fault};
use crate::manifest::{entry_names, name_key, name_position, names_sorted, put_entry, sorted_position, utf8_decoded, utf8_encoded};
use crate::manifest_format::{
    bool_byte, compression_tag, extractor_bytes, filter_bytes, group_bytes, group_fits, groups_bytes,
    header_bytes, index_tag, keyspace_bytes, keyspace_fits, keyspaces_bytes, manifest_bytes, manifest_fits,
    manifest_spec, options_bytes, payload_bytes, prefix_filter_bytes, put_all, q_bool, q_bytes, q_compression,
    q_extractor, q_filter, q_groups, q_index, q_keyspaces, q_options, q_prefix_filter, q_table, q_tables,
    q_text, q_u32, q_u64, q_u8, q_usize, table_bytes, table_fits, tables_bytes, extractor_readable, ExtractorRecord,
    ManifestRecord, OptionsRecord, TableRecord, MANIFEST_MAGIC, MANIFEST_VERSION,
};
use crate::options::{CompressionProfile, FilterPolicy, IndexSearchPolicy, PrefixFilterPolicy};
use crate::wire::{checksum_spec, le16, le32, le64, lemma_le_lengths, lemma_u16_at, lemma_u32_at, lemma_u64_at, len_prefixed, take_at, u8_at};

verus! {

/// The bytes `b` stand in `s` at position `p`.
pub open spec fn at(s: Seq<u8>, p: int, b: Seq<u8>) -> bool {
    0 <= p && p + b.len() <= s.len() && s.subrange(p, p + b.len()) == b
}

pub proof fn lemma_at_split(s: Seq<u8>, p: int, a: Seq<u8>, b: Seq<u8>)
    requires
        at(s, p, a + b),
    ensures
        at(s, p, a),
        at(s, p + a.len(), b),
{
    assert((a + b).len() == a.len() + b.len());
    assert(s.subrange(p, p + a.len() + b.len()) == a + b);
    assert(s.subrange(p, p + a.len()) =~= (a + b).subrange(0, a.len() as int));
    assert(s.subrange(p + a.len(), p + a.len() + b.len()) =~= (a + b).subrange(
        a.len() as int,
        (a.len() + b.len()) as int,
    ));
    assert((a + b).subrange(0, a.len() as int) =~= a);
    assert((a + b).subrange(a.len() as int, (a.len() + b.len()) as int) =~= b);
}

proof fn lemma_q_u8(s: Seq<u8>, p: int, v: u8)
    requires
        at(s, p, seq![v]),
    ensures
        q_u8(s, p) == Ok::<(u8, int), Fault>((v, p + 1)),
{
    assert(s[p] == s.subrange(p, p + 1)[0]);
}

proof fn lemma_q_u32(s: Seq<u8>, p: int, v: u32)
    requires
        at(s, p, le32(v)),
    ensures
        q_u32(s, p) == Ok::<(u32, int), Fault>((v, p + 4)),
{
    lemma_le_lengths(0, v, 0);
    lemma_u32_at(s, p, v);
}

proof fn lemma_q_u64(s: Seq<u8>, p: int, v: u64)
    requires
        at(s, p, le64(v)),
    ensures
        q_u64(s, p) == Ok::<(u64, int), Fault>((v, p + 8)),
{
    lemma_le_lengths(0, 0, v);
    lemma_u64_at(s, p, v);
}

proof fn lemma_q_bytes(s: Seq<u8>, p: int, b: Seq<u8>)
    requires
        b.len() <= u32::MAX,
        at(s, p, len_prefixed(b)),
    ensures
        len_prefixed(b).len() == 4 + b.len(),
        q_bytes(s, p) == Ok::<(Seq<u8>, int), Fault>((b, p + 4 + b.len())),
{
    lemma_le_lengths(0, b.len() as u32, 0);
    lemma_at_split(s, p, le32(b.len() as u32), b);
    lemma_q_u32(s, p, b.len() as u32);
}

proof fn lemma_q_text(s: Seq<u8>, p: int, t: Seq<char>, not_utf8: Seq<char>)
    requires
        utf8_encoded(t).len() <= u32::MAX,
        utf8_decoded(utf8_encoded(t)) == Some(t),
        at(s, p, len_prefixed(utf8_encoded(t))),
    ensures
        len_prefixed(utf8_encoded(t)).len() == 4 + utf8_encoded(t).len(),
        q_text(s, p, not_utf8) == Ok::<(Seq<char>, int), Fault>((t, p + 4 + utf8_encoded(t).len())),
{
    lemma_q_bytes(s, p, utf8_encoded(t));
}

proof fn lemma_q_bool(s: Seq<u8>, p: int, v: bool)
    requires
        at(s, p, seq![bool_byte(v)]),
    ensures
        q_bool(s, p) == Ok::<(bool, int), Fault>((v, p + 1)),
{
    lemma_q_u8(s, p, bool_byte(v));
}

proof fn lemma_q_usize(s: Seq<u8>, p: int, v: usize)
    requires
        at(s, p, le64(v as u64)),
    ensures
        q_usize(s, p) == Ok::<(usize, int), Fault>((v, p + 8)),
{
    lemma_q_u64(s, p, v as u64);
}

proof fn lemma_q_compression(s: Seq<u8>, p: int, v: CompressionProfile)
    requires
        at(s, p, seq![compression_tag(v)]),
    ensures
        q_compression(s, p) == Ok::<(CompressionProfile, int), Fault>((v, p + 1)),
{
    lemma_q_u8(s, p, compression_tag(v));
}

proof fn lemma_q_index(s: Seq<u8>, p: int, v: IndexSearchPolicy)
    requires
        at(s, p, seq![index_tag(v)]),
    ensures
        q_index(s, p) == Ok::<(IndexSearchPolicy, int), Fault>((v, p + 1)),
{
    lemma_q_u8(s, p, index_tag(v));
}

proof fn lemma_q_filter(s: Seq<u8>, p: int, v: FilterPolicy)
    requires
        at(s, p, filter_bytes(v)),
    ensures
        q_filter(s, p) == Ok::<(FilterPolicy, int), Fault>((v, p + filter_bytes(v).len())),
{
    match v {
        FilterPolicy::Disabled => lemma_q_u8(s, p, 0),
        FilterPolicy::Bloom { bits_per_key } => {
            assert(filter_bytes(v) =~= seq![1u8] + seq![bits_per_key]);
            lemma_at_split(s, p, seq![1u8], seq![bits_per_key]);
            lemma_q_u8(s, p, 1);
            lemma_q_u8(s, p + 1, bits_per_key);
        },
    }
}

proof fn lemma_q_prefix_filter(s: Seq<u8>, p: int, v: PrefixFilterPolicy)
    requires
        at(s, p, prefix_filter_bytes(v)),
    ensures
        q_prefix_filter(s, p) == Ok::<(PrefixFilterPolicy, int), Fault>((v, p + prefix_filter_bytes(v).len())),
{
    match v {
        PrefixFilterPolicy::Disabled => lemma_q_u8(s, p, 0),
        PrefixFilterPolicy::Bloom { bits_per_prefix } => {
            assert(prefix_filter_bytes(v) =~= seq![1u8] + seq![bits_per_prefix]);
            lemma_at_split(s, p, seq![1u8], seq![bits_per_prefix]);
            lemma_q_u8(s, p, 1);
            lemma_q_u8(s, p + 1, bits_per_prefix);
        },
    }
}

proof fn lemma_q_extractor(s: Seq<u8>, p: int, v: ExtractorRecord)
    requires
        extractor_readable(v),
        at(s, p, extractor_bytes(v)),
    ensures
        q_extractor(s, p) == Ok::<(ExtractorRecord, int), Fault>((v, p + extractor_bytes(v).len())),
{
    match v {
        ExtractorRecord::FixedLen(n) => {
            lemma_le_lengths(0, 0, n as u64);
            lemma_at_split(s, p, seq![0u8], le64(n as u64));
            lemma_q_u8(s, p, 0);
            lemma_q_usize(s, p + 1, n);
        },
        ExtractorRecord::Separator(b) => {
            assert(extractor_bytes(v) =~= seq![1u8] + seq![b]);
            lemma_at_split(s, p, seq![1u8], seq![b]);
            lemma_q_u8(s, p, 1);
            lemma_q_u8(s, p + 1, b);
        },
        ExtractorRecord::Custom(name) => {
            lemma_at_split(s, p, seq![2u8], len_prefixed(utf8_encoded(name)));
            lemma_q_u8(s, p, 2);
            lemma_q_text(s, p + 1, name, "manifest custom prefix extractor is not UTF-8"@);
        },
        ExtractorRecord::Disabled => lemma_q_u8(s, p, 3),
    }
}

/// Options written at `p` read back.
#[verifier::spinoff_prover]
#[verifier::rlimit(40)]
proof fn lemma_q_options(s: Seq<u8>, p: int, o: OptionsRecord)
    requires
        extractor_readable(o.prefix_extractor),
        at(s, p, options_bytes(o)),
    ensures
        q_options(s, p) == Ok::<(OptionsRecord, int), Fault>((o, p + options_bytes(o).len())),
{
    lemma_le_lengths(0, 0, o.block_bytes as u64);
    lemma_le_lengths(0, 0, o.blob_threshold_bytes as u64);
    let x0 = seq![bool_byte(o.allow_empty_keys)];
    let x1 = x0 + seq![compression_tag(o.compression)];
    let x2 = x1 + le64(o.block_bytes as u64);
    let x3 = x2 + filter_bytes(o.filter_policy);
    let x4 = x3 + extractor_bytes(o.prefix_extractor);
    let x5 = x4 + prefix_filter_bytes(o.prefix_filter_policy);
    let x6 = x5 + seq![index_tag(o.index_search_policy)];
    let x7 = x6 + le64(o.blob_threshold_bytes as u64);
    assert(options_bytes(o) =~= x7);
    lemma_at_split(s, p, x6, le64(o.blob_threshold_bytes as u64));
    lemma_at_split(s, p, x5, seq![index_tag(o.index_search_policy)]);
    lemma_at_split(s, p, x4, prefix_filter_bytes(o.prefix_filter_policy));
    lemma_at_split(s, p, x3, extractor_bytes(o.prefix_extractor));
    lemma_at_split(s, p, x2, filter_bytes(o.filter_policy));
    lemma_at_split(s, p, x1, le64(o.block_bytes as u64));
    lemma_at_split(s, p, x0, seq![compression_tag(o.compression)]);
    lemma_q_bool(s, p, o.allow_empty_keys);
    lemma_q_compression(s, p + 1, o.compression);
    lemma_q_usize(s, p + 2, o.block_bytes);
    lemma_q_filter(s, p + x2.len(), o.filter_policy);
    lemma_q_extractor(s, p + x3.len(), o.prefix_extractor);
    lemma_q_prefix_filter(s, p + x4.len(), o.prefix_filter_policy);
    lemma_q_index(s, p + x5.len(), o.index_search_policy);
    lemma_q_usize(s, p + x6.len(), o.blob_threshold_bytes);
}

/// A table written at `p` reads back.
#[verifier::spinoff_prover]
#[verifier::rlimit(40)]
proof fn lemma_q_table(s: Seq<u8>, p: int, t: TableRecord)
    requires
        table_fits(t),
        at(s, p, table_bytes(t)),
    ensures
        q_table(s, p) == Ok::<(TableRecord, int), Fault>((t, p + table_bytes(t).len())),
{
    lemma_le_lengths(0, t.level, t.id);
    lemma_le_lengths(0, t.smallest_user_key.len() as u32, t.smallest_sequence);
    lemma_le_lengths(0, t.largest_user_key.len() as u32, t.largest_sequence);
    let x0 = le64(t.id);
    let x1 = x0 + le32(t.level);
    let x2 = x1 + len_prefixed(t.smallest_user_key);
    let x3 = x2 + len_prefixed(t.largest_user_key);
    let x4 = x3 + le64(t.smallest_sequence);
    let x5 = x4 + le64(t.largest_sequence);
    let x6 = x5 + seq![codec_tag(t.codec)];
    assert(table_bytes(t) =~= x6);
    lemma_at_split(s, p, x5, seq![codec_tag(t.codec)]);
    lemma_at_split(s, p, x4, le64(t.largest_sequence));
    lemma_at_split(s, p, x3, le64(t.smallest_sequence));
    lemma_at_split(s, p, x2, len_prefixed(t.largest_user_key));
    lemma_at_split(s, p, x1, len_prefixed(t.smallest_user_key));
    lemma_at_split(s, p, x0, le32(t.level));
    lemma_q_u64(s, p, t.id);
    lemma_q_u32(s, p + 8, t.level);
    lemma_q_bytes(s, p + 12, t.smallest_user_key);
    lemma_q_bytes(s, p + x2.len(), t.largest_user_key);
    lemma_q_u64(s, p + x3.len(), t.smallest_sequence);
    lemma_q_u64(s, p + x4.len(), t.largest_sequence);
    lemma_q_u8(s, p + x5.len(), codec_tag(t.codec));
    assert(codec_of_tag(codec_tag(t.codec)) == Some(t.codec));
}

/// Tables written one after the other at `p` read back.
proof fn lemma_q_tables(s: Seq<u8>, p: int, ts: Seq<TableRecord>)
    requires
        forall|j: int| 0 <= j < ts.len() ==> table_fits(#[trigger] ts[j]),
        at(s, p, tables_bytes(ts)),
    ensures
        q_tables(s, p, ts.len()) == Ok::<(Seq<TableRecord>, int), Fault>((ts, p + tables_bytes(ts).len())),
    decreases ts.len(),
{
    if ts.len() > 0 {
        let dl = ts.drop_last();
        lemma_at_split(s, p, tables_bytes(dl), table_bytes(ts.last()));
        assert forall|j: int| 0 <= j < dl.len() implies table_fits(#[trigger] dl[j]) by {
            assert(dl[j] == ts[j]);
        }
        lemma_q_tables(s, p, dl);
        lemma_q_table(s, p + tables_bytes(dl).len(), ts.last());
        assert(dl.push(ts.last()) =~= ts);
    } else {
        assert(ts =~= Seq::<TableRecord>::empty());
    }
}

/// A keyspace name reads back as the same text.
pub open spec fn keyspace_readable(e: (Seq<char>, OptionsRecord)) -> bool {
    &&& utf8_encoded(e.0).len() <= u32::MAX
    &&& utf8_decoded(utf8_encoded(e.0)) == Some(e.0)
    &&& extractor_readable(e.1.prefix_extractor)
}

proof fn lemma_q_keyspaces(s: Seq<u8>, p: int, ks: Seq<(Seq<char>, OptionsRecord)>)
    requires
        forall|j: int| 0 <= j < ks.len() ==> keyspace_readable(#[trigger] ks[j]),
        at(s, p, keyspaces_bytes(ks)),
    ensures
        q_keyspaces(s, p, ks.len()) == Ok::<(Seq<(Seq<char>, OptionsRecord)>, int), Fault>(
            (ks, p + keyspaces_bytes(ks).len()),
        ),
    decreases ks.len(),
{
    if ks.len() > 0 {
        let dl = ks.drop_last();
        let e = ks.last();
        lemma_at_split(s, p, keyspaces_bytes(dl), keyspace_bytes(e));
        assert forall|j: int| 0 <= j < dl.len() implies keyspace_readable(#[trigger] dl[j]) by {
            assert(dl[j] == ks[j]);
        }
        lemma_q_keyspaces(s, p, dl);
        let q = p + keyspaces_bytes(dl).len();
        assert(keyspace_readable(ks[ks.len() - 1]));
        lemma_at_split(s, q, len_prefixed(utf8_encoded(e.0)), options_bytes(e.1));
        lemma_q_text(s, q, e.0, "manifest keyspace name is not valid UTF-8"@);
        lemma_q_options(s, q + 4 + utf8_encoded(e.0).len(), e.1);
        assert(dl.push(e) =~= ks);
    } else {
        assert(ks =~= Seq::<(Seq<char>, OptionsRecord)>::empty());
    }
}

/// A table list whose name reads back and whose tables fit.
pub open spec fn group_readable(e: (Seq<char>, Seq<TableRecord>)) -> bool {
    &&& group_fits(e)
    &&& utf8_decoded(utf8_encoded(e.0)) == Some(e.0)
}

proof fn lemma_q_groups(s: Seq<u8>, p: int, gs: Seq<(Seq<char>, Seq<TableRecord>)>)
    requires
        forall|j: int| 0 <= j < gs.len() ==> group_readable(#[trigger] gs[j]),
        at(s, p, groups_bytes(gs)),
    ensures
        q_groups(s, p, gs.len()) == Ok::<(Seq<(Seq<char>, Seq<TableRecord>)>, int), Fault>(
            (gs, p + groups_bytes(gs).len()),
        ),
    decreases gs.len(),
{
    if gs.len() > 0 {
        let dl = gs.drop_last();
        let e = gs.last();
        lemma_at_split(s, p, groups_bytes(dl), group_bytes(e));
        assert forall|j: int| 0 <= j < dl.len() implies group_readable(#[trigger] dl[j]) by {
            assert(dl[j] == gs[j]);
        }
        lemma_q_groups(s, p, dl);
        let q = p + groups_bytes(dl).len();
        assert(group_readable(gs[gs.len() - 1]));
        let name = len_prefixed(utf8_encoded(e.0));
        lemma_le_lengths(0, e.1.len() as u32, 0);
        assert(group_bytes(e) == (name + le32(e.1.len() as u32)) + tables_bytes(e.1));
        lemma_at_split(s, q, name + le32(e.1.len() as u32), tables_bytes(e.1));
        lemma_at_split(s, q, name, le32(e.1.len() as u32));
        lemma_q_text(s, q, e.0, "manifest table keyspace is not valid UTF-8"@);
        lemma_q_u32(s, q + name.len(), e.1.len() as u32);
        lemma_q_tables(s, q + name.len() + 4, e.1);
        assert(dl.push(e) =~= gs);
    } else {
        assert(gs =~= Seq::<(Seq<char>, Seq<TableRecord>)>::empty());
    }
}

/// Putting entries whose names are already sorted, each once, into an
/// empty list gives the entries back.
proof fn lemma_put_all_sorted<V>(entries: Seq<(Seq<char>, V)>)
    requires
        names_sorted(entry_names(entries)),
    ensures
        put_all(Seq::empty(), entries) == entries,
    decreases entries.len(),
{
    if entries.len() > 0 {
        let dl = entries.drop_last();
        let last = entries.last();
        let names = entry_names(dl);
        assert(names =~= entry_names(entries).drop_last());
        lemma_put_all_sorted(dl);
        assert(entry_names(entries)[entries.len() - 1] == last.0);
        assert forall|j: int| 0 <= j < names.len() implies names[j] != last.0 by {
            assert(names[j] == entry_names(entries)[j]);
            crate::bytes::lemma_bytes_order_properties(name_key(names[j]), name_key(last.0));
        }
        assert(name_position(names, last.0) == -1);
        assert forall|j: int| 0 <= j < names.len() implies crate::bytes::bytes_lt(
            name_key(#[trigger] names[j]),
            name_key(last.0),
        ) by {
            assert(names[j] == entry_names(entries)[j]);
        }
        crate::manifest::lemma_sorted_position(names, last.0, names.len() as int);
        assert(dl.insert(dl.len() as int, last) =~= entries);
    }
}

/// A manifest whose names are sorted, read back as what they are, and whose
/// counts and lengths fit.
pub open spec fn record_well_formed(m: ManifestRecord) -> bool {
    &&& names_sorted(entry_names(m.keyspaces))
    &&& names_sorted(entry_names(m.tables))
    &&& forall|j: int| 0 <= j < m.keyspaces.len() ==> extractor_readable(#[trigger] m.keyspaces[j].1.prefix_extractor)
    &&& manifest_fits(m)
}

/// Reading the bytes of a manifest file gives the manifest written.
#[verifier::spinoff_prover]
#[verifier::rlimit(40)]
pub proof fn lemma_manifest_round_trip(m: ManifestRecord)
    requires
        record_well_formed(m),
    ensures
        manifest_spec(manifest_bytes(m)) == Ok::<ManifestRecord, Fault>(m),
{
    let payload = payload_bytes(m);
    let file = manifest_bytes(m);
    let h = header_bytes(payload);
    lemma_le_lengths(MANIFEST_VERSION, MANIFEST_MAGIC, m.wal_replay_floor);
    lemma_le_lengths(0, payload.len() as u32, 0);
    lemma_le_lengths(0, checksum_spec(payload), 0);
    lemma_le_lengths(0, m.keyspaces.len() as u32, 0);
    lemma_le_lengths(0, m.tables.len() as u32, 0);
    assert(h.len() == 14);
    // the header fields
    let h0 = le32(MANIFEST_MAGIC);
    let h1 = h0 + le16(MANIFEST_VERSION);
    let h2 = h1 + le32(payload.len() as u32);
    assert(h == h2 + le32(checksum_spec(payload)));
    assert(at(file, 0, h + payload)) by {
        assert(file.subrange(0, file.len() as int) =~= file);
    }
    lemma_at_split(file, 0, h, payload);
    lemma_at_split(file, 0, h2, le32(checksum_spec(payload)));
    lemma_at_split(file, 0, h1, le32(payload.len() as u32));
    lemma_at_split(file, 0, h0, le16(MANIFEST_VERSION));
    lemma_u32_at(file, 0, MANIFEST_MAGIC);
    lemma_u16_at(file, 4, MANIFEST_VERSION);
    lemma_u32_at(file, 6, payload.len() as u32);
    lemma_u32_at(file, 10, checksum_spec(payload));
    assert(file.subrange(14, file.len() as int) == payload);
    // the payload
    let k0 = le64(m.wal_replay_floor);
    let k1 = k0 + le32(m.keyspaces.len() as u32);
    let k2 = k1 + keyspaces_bytes(m.keyspaces);
    let k3 = k2 + le32(m.tables.len() as u32);
    assert(payload == k3 + groups_bytes(m.tables));
    assert(at(payload, 0, payload)) by {
        assert(payload.subrange(0, payload.len() as int) =~= payload);
    }
    lemma_at_split(payload, 0, k3, groups_bytes(m.tables));
    lemma_at_split(payload, 0, k2, le32(m.tables.len() as u32));
    lemma_at_split(payload, 0, k1, keyspaces_bytes(m.keyspaces));
    lemma_at_split(payload, 0, k0, le32(m.keyspaces.len() as u32));
    lemma_q_u64(payload, 0, m.wal_replay_floor);
    lemma_q_u32(payload, 8, m.keyspaces.len() as u32);
    assert forall|j: int| 0 <= j < m.keyspaces.len() implies keyspace_readable(#[trigger] m.keyspaces[j]) by {
        assert(keyspace_fits(m.keyspaces[j]));
        assert(entry_names(m.keyspaces)[j] == m.keyspaces[j].0);
    }
    lemma_q_keyspaces(payload, 12, m.keyspaces);
    lemma_q_u32(payload, k2.len() as int, m.tables.len() as u32);
    assert forall|j: int| 0 <= j < m.tables.len() implies group_readable(#[trigger] m.tables[j]) by {
        assert(entry_names(m.tables)[j] == m.tables[j].0);
    }
    lemma_q_groups(payload, k3.len() as int, m.tables);
    lemma_put_all_sorted(m.keyspaces);
    lemma_put_all_sorted(m.tables);
}

} // verus!
