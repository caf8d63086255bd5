//! Which records and range tombstones a compaction keeps.

use vstd::prelude::*;
use crate::blob::{duplicate_value_ref, entry_value, TableEntry, ValueRefView};
use crate::bytes::{bytes_order, lemma_bytes_order_properties};
use crate::internal_key::{
    internal_key_less, key_le, key_order, keys_sorted, lemma_key_order_antisym,
    lemma_key_order_trans, InternalKeyView, ValueKind,
};
use crate::range_tombstone::{key_in_range, key_is_in_range};
use crate::table::TableRangeTombstone;
use crate::types::Sequence;

verus! {

/// The mathematical value of a table record.
pub type EntryView = (InternalKeyView, Option<ValueRefView>);

pub open spec fn entry_view(e: TableEntry) -> EntryView {
    (e.0@, entry_value(e))
}

pub open spec fn entry_views(s: Seq<TableEntry>) -> Seq<EntryView> {
    s.map_values(|e: TableEntry| entry_view(e))
}

pub open spec fn view_keys(s: Seq<EntryView>) -> Seq<InternalKeyView> {
    s.map_values(|e: EntryView| e.0)
}

fn duplicate_entry(e: &TableEntry) -> (r: TableEntry)
    ensures
        entry_view(r) == entry_view(*e),
{
    let value = match &e.1 {
        Some(v) => Some(duplicate_value_ref(v)),
        None => None,
    };
    (e.0.duplicate(), value)
}

/// Internal keys in order share their user key with every key between two
/// keys of the same user key.
pub(crate) proof fn lemma_same_user_key_between(a: InternalKeyView, b: InternalKeyView, c: InternalKeyView)
    requires
        key_le(a, b),
        key_le(b, c),
        a.user_key == c.user_key,
    ensures
        b.user_key == a.user_key,
{
    lemma_bytes_order_properties(a.user_key, b.user_key);
    lemma_bytes_order_properties(b.user_key, c.user_key);
}

/// Sorts records by internal key. The result holds the same records.
pub fn sort_entries(entries: Vec<TableEntry>) -> (r: Vec<TableEntry>)
    ensures
        keys_sorted(view_keys(entry_views(r@))),
        r@.to_multiset() == entries@.to_multiset(),
{
    broadcast use vstd::seq_lib::group_to_multiset_ensures;

    let mut input = entries;
    let mut out: Vec<TableEntry> = Vec::new();
    while input.len() > 0
        invariant
            out@.to_multiset().add(input@.to_multiset()) == entries@.to_multiset(),
            keys_sorted(view_keys(entry_views(out@))),
            forall|i: int, j: int|
                0 <= i < out@.len() && 0 <= j < input@.len() ==> key_le(out@[i].0@, input@[j].0@),
        decreases input@.len(),
    {
        let mut best: usize = 0;
        let mut i: usize = 1;
        proof {
            lemma_key_order_antisym(input@[0].0@, input@[0].0@);
        }
        while i < input.len()
            invariant
                1 <= i <= input@.len(),
                best < input@.len(),
                forall|j: int| 0 <= j < i ==> key_le(input@[best as int].0@, input@[j].0@),
            decreases input@.len() - i,
        {
            proof {
                lemma_key_order_antisym(input@[best as int].0@, input@[i as int].0@);
            }
            if internal_key_less(&input[i].0, &input[best].0) {
                proof {
                    lemma_key_order_antisym(input@[i as int].0@, input@[i as int].0@);
                    assert forall|j: int| 0 <= j <= i implies key_le(input@[i as int].0@, input@[j].0@) by {
                        if j < i {
                            lemma_key_order_trans(input@[i as int].0@, input@[best as int].0@, input@[j].0@);
                        }
                    }
                }
                best = i;
            }
            i = i + 1;
        }
        let ghost before = input@;
        let ghost out_before = out@;
        let item = input.remove(best);
        proof {
            before.to_multiset_ensures();
            assert(before.remove(best as int).to_multiset() == before.to_multiset().remove(before[best as int]));
            assert forall|j: int| 0 <= j < input@.len() implies key_le(item.0@, input@[j].0@) by {
                if j < best {
                    assert(input@[j] == before[j]);
                } else {
                    assert(input@[j] == before[j + 1]);
                }
            }
        }
        out.push(item);
        proof {
            out_before.to_multiset_ensures();
            assert(out@.to_multiset() == out_before.to_multiset().insert(item));
            assert(out@.to_multiset().add(input@.to_multiset()) =~= entries@.to_multiset());
            let ks = view_keys(entry_views(out@));
            assert forall|a: int, b: int| 0 <= a < b < ks.len() implies key_le(ks[a], ks[b]) by {
                if b == out@.len() - 1 {
                    assert(before.contains(item));
                    let k = choose|k: int| 0 <= k < before.len() && before[k] == item;
                    assert(key_le(out_before[a].0@, before[k].0@));
                } else {
                    assert(view_keys(entry_views(out_before))[a] == ks[a]);
                    assert(view_keys(entry_views(out_before))[b] == ks[b]);
                }
            }
            assert forall|a: int, j: int| 0 <= a < out@.len() && 0 <= j < input@.len()
                implies key_le(out@[a].0@, input@[j].0@) by {
                if a < out_before.len() {
                    if j < best {
                        assert(input@[j] == before[j]);
                    } else {
                        assert(input@[j] == before[j + 1]);
                    }
                }
            }
        }
    }
    proof {
        assert(input@.to_multiset() =~= vstd::multiset::Multiset::empty());
        assert(out@.to_multiset().add(vstd::multiset::Multiset::empty()) =~= out@.to_multiset());
    }
    out
}

// ---------------------------------------------------------------- versions

/// Record `i` survives compaction: it is newer than the oldest active
/// snapshot, or it is the newest record of its user key at or below that
/// snapshot.
pub open spec fn kept_version(s: Seq<EntryView>, i: int, oldest: u64) -> bool {
    s[i].0.sequence > oldest || !exists|j: int|
        0 <= j < i && s[j].0.user_key == s[i].0.user_key && s[j].0.sequence <= oldest
}

/// The surviving records among the first `n`, in order.
pub open spec fn kept_versions(s: Seq<EntryView>, oldest: u64, n: int) -> Seq<EntryView>
    decreases n,
{
    if n <= 0 {
        Seq::empty()
    } else if kept_version(s, n - 1, oldest) {
        kept_versions(s, oldest, n - 1).push(s[n - 1])
    } else {
        kept_versions(s, oldest, n - 1)
    }
}

proof fn lemma_kept_in_versions(s: Seq<EntryView>, oldest: u64, n: int, i: int)
    requires
        0 <= i < n <= s.len(),
        kept_version(s, i, oldest),
    ensures
        kept_versions(s, oldest, n).contains(s[i]),
    decreases n,
{
    if i == n - 1 {
        assert(kept_versions(s, oldest, n).last() == s[i]);
    } else {
        lemma_kept_in_versions(s, oldest, n - 1, i);
        let k = choose|k: int| 0 <= k < kept_versions(s, oldest, n - 1).len() && #[trigger] kept_versions(s, oldest, n - 1)[k] == s[i];
        if kept_version(s, n - 1, oldest) {
            assert(kept_versions(s, oldest, n)[k] == s[i]);
        }
    }
}

/// Compaction never drops a version that a live snapshot can still read:
/// every input record newer than the oldest active snapshot is among the
/// compacted records.
pub proof fn lemma_compaction_keeps_newer_versions(records: Seq<TableEntry>, out: Seq<TableEntry>, oldest: u64)
    requires
        exists|sorted: Seq<TableEntry>|
            sorted.to_multiset() == records.to_multiset() && keys_sorted(view_keys(entry_views(sorted)))
                && entry_views(out) == kept_versions(entry_views(sorted), oldest, sorted.len() as int),
    ensures
        forall|i: int|
            0 <= i < records.len() && (#[trigger] records[i]).0@.sequence > oldest ==> entry_views(out).contains(
                entry_view(records[i]),
            ),
{
    broadcast use vstd::seq_lib::group_to_multiset_ensures;

    let sorted = choose|sorted: Seq<TableEntry>|
        sorted.to_multiset() == records.to_multiset() && keys_sorted(view_keys(entry_views(sorted)))
            && entry_views(out) == kept_versions(entry_views(sorted), oldest, sorted.len() as int);
    assert forall|i: int| 0 <= i < records.len() && (#[trigger] records[i]).0@.sequence > oldest implies entry_views(
        out,
    ).contains(entry_view(records[i])) by {
        assert(records.contains(records[i]));
        assert(sorted.to_multiset().count(records[i]) > 0);
        assert(sorted.contains(records[i]));
        let j = choose|j: int| 0 <= j < sorted.len() && sorted[j] == records[i];
        let s = entry_views(sorted);
        assert(s[j] == entry_view(records[i]));
        assert(kept_version(s, j, oldest));
        lemma_kept_in_versions(s, oldest, sorted.len() as int, j);
    }
}

proof fn lemma_first_with_key(s: Seq<EntryView>, k: InternalKeyView, j: int) -> (j0: int)
    requires
        0 <= j < s.len(),
        s[j].0 == k,
    ensures
        0 <= j0 <= j,
        s[j0].0 == k,
        forall|t: int| 0 <= t < j0 ==> (#[trigger] s[t]).0 != k,
    decreases j,
{
    if exists|t: int| 0 <= t < j && (#[trigger] s[t]).0 == k {
        let t = choose|t: int| 0 <= t < j && (#[trigger] s[t]).0 == k;
        lemma_first_with_key(s, k, t)
    } else {
        j
    }
}

/// Compaction keeps, for each user key, the newest version at or below the
/// oldest active snapshot, which that snapshot (and every later read) still
/// reads: an input record at or below the snapshot that sorts first among
/// its key's records at or below the snapshot keeps its internal key in the
/// output.
pub proof fn lemma_compaction_keeps_snapshot_version(records: Seq<TableEntry>, out: Seq<TableEntry>, oldest: u64)
    requires
        exists|sorted: Seq<TableEntry>|
            sorted.to_multiset() == records.to_multiset() && keys_sorted(view_keys(entry_views(sorted)))
                && entry_views(out) == kept_versions(entry_views(sorted), oldest, sorted.len() as int),
    ensures
        forall|i: int|
            0 <= i < records.len() && (#[trigger] records[i]).0@.sequence <= oldest && (forall|j: int|
                0 <= j < records.len() && records[j].0@.user_key == records[i].0@.user_key && records[j].0@.sequence
                    <= oldest ==> key_le(records[i].0@, records[j].0@)) ==> exists|m: int|
                0 <= m < out.len() && out[m].0@ == records[i].0@,
{
    broadcast use vstd::seq_lib::group_to_multiset_ensures;

    let sorted = choose|sorted: Seq<TableEntry>|
        sorted.to_multiset() == records.to_multiset() && keys_sorted(view_keys(entry_views(sorted)))
            && entry_views(out) == kept_versions(entry_views(sorted), oldest, sorted.len() as int);
    let s = entry_views(sorted);
    let ks = view_keys(s);
    assert forall|i: int|
        0 <= i < records.len() && (#[trigger] records[i]).0@.sequence <= oldest && (forall|j: int|
            0 <= j < records.len() && records[j].0@.user_key == records[i].0@.user_key && records[j].0@.sequence
                <= oldest ==> key_le(records[i].0@, records[j].0@)) implies exists|m: int|
            0 <= m < out.len() && out[m].0@ == records[i].0@ by {
        let key = records[i].0@;
        assert(records.contains(records[i]));
        assert(sorted.to_multiset().count(records[i]) > 0);
        assert(sorted.contains(records[i]));
        let j = choose|j: int| 0 <= j < sorted.len() && sorted[j] == records[i];
        assert(s[j].0 == key);
        let j0 = lemma_first_with_key(s, key, j);
        assert(kept_version(s, j0, oldest)) by {
            if exists|t: int| 0 <= t < j0 && s[t].0.user_key == s[j0].0.user_key && s[t].0.sequence <= oldest {
                let t = choose|t: int| 0 <= t < j0 && s[t].0.user_key == s[j0].0.user_key && s[t].0.sequence <= oldest;
                assert(sorted.contains(sorted[t]));
                assert(records.to_multiset().count(sorted[t]) > 0);
                assert(records.contains(sorted[t]));
                let q = choose|q: int| 0 <= q < records.len() && records[q] == sorted[t];
                assert(s[t].0 == records[q].0@);
                assert(key_le(key, s[t].0));
                assert(ks[t] == s[t].0 && ks[j0] == s[j0].0);
                assert(key_le(s[t].0, s[j0].0));
                crate::internal_key::lemma_key_order_antisym(key, s[t].0);
                assert(s[t].0 == key);
            }
        }
        lemma_kept_in_versions(s, oldest, sorted.len() as int, j0);
        let m = choose|m: int| 0 <= m < entry_views(out).len() && entry_views(out)[m] == s[j0];
        assert(entry_views(out)[m] == entry_view(out[m]));
    }
}

/// Sorts the records by internal key and keeps every version newer than the
/// oldest active snapshot, plus, for each user key, the newest version at or
/// below it.
pub fn compact_point_records(records: Vec<TableEntry>, oldest_active_snapshot: Sequence) -> (r: Vec<TableEntry>)
    ensures
        exists|sorted: Seq<TableEntry>|
            sorted.to_multiset() == records@.to_multiset() && keys_sorted(
                view_keys(entry_views(sorted)),
            ) && entry_views(r@) == kept_versions(
                entry_views(sorted),
                oldest_active_snapshot.spec_get(),
                sorted.len() as int,
            ),
        keys_sorted(view_keys(entry_views(r@))),
        forall|i: int|
            0 <= i < records@.len() && (#[trigger] records@[i]).0@.sequence > oldest_active_snapshot.spec_get()
                ==> entry_views(r@).contains(entry_view(records@[i])),
        forall|i: int|
            0 <= i < records@.len() && (#[trigger] records@[i]).0@.sequence <= oldest_active_snapshot.spec_get()
                && (forall|j: int|
                0 <= j < records@.len() && records@[j].0@.user_key == records@[i].0@.user_key
                    && records@[j].0@.sequence <= oldest_active_snapshot.spec_get() ==> key_le(
                    records@[i].0@,
                    records@[j].0@,
                )) ==> exists|m: int| 0 <= m < r@.len() && r@[m].0@ == records@[i].0@,
{
    let ghost input = records@;
    let oldest = oldest_active_snapshot.get();
    let sorted = sort_entries(records);
    let ghost s = entry_views(sorted@);
    let ghost ks = view_keys(s);
    let mut compacted: Vec<TableEntry> = Vec::new();
    let mut kept_floor_version = false;
    let mut i: usize = 0;
    while i < sorted.len()
        invariant
            i <= sorted@.len(),
            s == entry_views(sorted@),
            ks == view_keys(s),
            keys_sorted(ks),
            entry_views(compacted@) == kept_versions(s, oldest, i as int),
            keys_sorted(view_keys(entry_views(compacted@))),
            forall|a: int| 0 <= a < compacted@.len() ==> exists|j: int| 0 <= j < i && #[trigger] compacted@[a].0@ == ks[j],
            i > 0 ==> kept_floor_version == exists|j: int|
                0 <= j < i && s[j].0.user_key == s[i - 1].0.user_key && s[j].0.sequence <= oldest,
        decreases sorted@.len() - i,
    {
        let record = &sorted[i];
        let new_key = i == 0 || !crate::bytes::bytes_equal(record.0.user_key(), sorted[i - 1].0.user_key());
        proof {
            assert(s[i as int] == entry_view(*record));
            if i > 0 {
                assert(s[i - 1] == entry_view(sorted@[i - 1]));
            }
            if new_key {
                assert forall|j: int| 0 <= j < i implies s[j].0.user_key != s[i as int].0.user_key by {
                    if s[j].0.user_key == s[i as int].0.user_key {
                        lemma_same_user_key_between(ks[j], ks[i - 1], ks[i as int]);
                    }
                }
            }
        }
        if new_key {
            kept_floor_version = false;
        }
        let sequence = record.0.sequence().get();
        let keep = sequence > oldest || !kept_floor_version;
        proof {
            assert(keep == kept_version(s, i as int, oldest));
        }
        if keep {
            let ghost before = compacted@;
            compacted.push(duplicate_entry(record));
            proof {
                assert(entry_views(compacted@) =~= entry_views(before).push(s[i as int]));
                let cks = view_keys(entry_views(compacted@));
                assert forall|a: int, b: int| 0 <= a < b < cks.len() implies key_le(cks[a], cks[b]) by {
                    if b == cks.len() - 1 {
                        let j = choose|j: int| 0 <= j < i && #[trigger] compacted@[a].0@ == ks[j];
                        assert(cks[a] == compacted@[a].0@);
                    } else {
                        assert(cks[a] == view_keys(entry_views(before))[a]);
                        assert(cks[b] == view_keys(entry_views(before))[b]);
                    }
                }
                assert forall|a: int| 0 <= a < compacted@.len() implies exists|j: int|
                    0 <= j < i + 1 && #[trigger] compacted@[a].0@ == ks[j] by {
                    if a == compacted@.len() - 1 {
                        assert(compacted@[a].0@ == ks[i as int]);
                    } else {
                        assert(compacted@[a] == before[a]);
                        let j = choose|j: int| 0 <= j < i && #[trigger] before[a].0@ == ks[j];
                    }
                }
            }
            if sequence <= oldest {
                kept_floor_version = true;
            }
        } else {
            proof {
                assert forall|a: int| 0 <= a < compacted@.len() implies exists|j: int|
                    0 <= j < i + 1 && #[trigger] compacted@[a].0@ == ks[j] by {
                    let j = choose|j: int| 0 <= j < i && #[trigger] compacted@[a].0@ == ks[j];
                }
            }
        }
        i = i + 1;
    }
    proof {
        lemma_compaction_keeps_newer_versions(input, compacted@, oldest);
        lemma_compaction_keeps_snapshot_version(input, compacted@, oldest);
    }
    compacted
}

// ---------------------------------------------------------------- point deletes

/// Record `i` is a point delete that no older record of its user key
/// follows, so nothing remains for it to hide.
pub open spec fn redundant_delete(s: Seq<EntryView>, i: int) -> bool {
    s[i].0.kind == ValueKind::PointDelete && !exists|j: int|
        i < j < s.len() && s[j].0.user_key == s[i].0.user_key && s[j].0.sequence <= s[i].0.sequence
}

/// The records among the first `n` that are not redundant deletes.
pub open spec fn without_redundant_deletes(s: Seq<EntryView>, n: int) -> Seq<EntryView>
    decreases n,
{
    if n <= 0 {
        Seq::empty()
    } else if redundant_delete(s, n - 1) {
        without_redundant_deletes(s, n - 1)
    } else {
        without_redundant_deletes(s, n - 1).push(s[n - 1])
    }
}

/// Drops each point delete that has no older record of its user key after
/// it. The records are in internal-key order.
pub fn cleanup_point_tombstones(point_records: &[TableEntry]) -> (r: Vec<TableEntry>)
    requires
        keys_sorted(view_keys(entry_views(point_records@))),
    ensures
        entry_views(r@) == without_redundant_deletes(
            entry_views(point_records@),
            point_records@.len() as int,
        ),
{
    let ghost s = entry_views(point_records@);
    let ghost ks = view_keys(s);
    let mut compacted: Vec<TableEntry> = Vec::new();
    let mut i: usize = 0;
    while i < point_records.len()
        invariant
            i <= point_records@.len(),
            s == entry_views(point_records@),
            ks == view_keys(s),
            keys_sorted(ks),
            entry_views(compacted@) == without_redundant_deletes(s, i as int),
        decreases point_records@.len() - i,
    {
        let record = &point_records[i];
        assert(s[i as int] == entry_view(*record));
        let mut drop = false;
        if record.0.kind() == ValueKind::PointDelete {
            let user_key = record.0.user_key();
            let sequence = record.0.sequence().get();
            let mut older = false;
            let mut j: usize = i + 1;
            while j < point_records.len() && crate::bytes::bytes_equal(point_records[j].0.user_key(), user_key)
                invariant
                    i < j <= point_records@.len(),
                    s == entry_views(point_records@),
                    ks == view_keys(s),
                    user_key@ == s[i as int].0.user_key,
                    sequence == s[i as int].0.sequence,
                    forall|k: int| i < k < j ==> s[k].0.user_key == user_key@,
                    older == exists|k: int|
                        i < k < j && s[k].0.user_key == user_key@ && s[k].0.sequence <= sequence,
                decreases point_records@.len() - j,
            {
                assert(s[j as int] == entry_view(point_records@[j as int]));
                if point_records[j].0.sequence().get() <= sequence {
                    older = true;
                }
                j = j + 1;
            }
            proof {
                if j < point_records@.len() {
                    assert(s[j as int] == entry_view(point_records@[j as int]));
                    assert forall|k: int| j <= k < s.len() implies s[k].0.user_key != user_key@ by {
                        if s[k].0.user_key == user_key@ && k > j {
                            lemma_same_user_key_between(ks[i as int], ks[j as int], ks[k]);
                        }
                    }
                }
            }
            drop = !older;
        }
        proof {
            assert(drop == redundant_delete(s, i as int));
        }
        if !drop {
            let ghost before = compacted@;
            compacted.push(duplicate_entry(record));
            proof {
                assert(entry_views(compacted@) =~= entry_views(before).push(s[i as int]));
            }
        }
        i = i + 1;
    }
    compacted
}

/// `out` is what compaction keeps of `records`: the records in internal-key
/// order, the versions that survive, and of those all but the redundant
/// deletes.
pub open spec fn compacts_to(records: Seq<TableEntry>, out: Seq<EntryView>, oldest: u64) -> bool {
    exists|sorted: Seq<TableEntry>|
        sorted.to_multiset() == records.to_multiset() && keys_sorted(view_keys(entry_views(sorted)))
            && ({
            let kept = kept_versions(entry_views(sorted), oldest, sorted.len() as int);
            out == without_redundant_deletes(kept, kept.len() as int)
        })
}

/// Compacts the versions of one user key, then drops redundant deletes.
pub fn compact_point_record_group(records: Vec<TableEntry>, oldest_active_snapshot: Sequence) -> (r: Vec<TableEntry>)
    ensures
        compacts_to(records@, entry_views(r@), oldest_active_snapshot.spec_get()),
{
    let compacted = compact_point_records(records, oldest_active_snapshot);
    cleanup_point_tombstones(compacted.as_slice())
}

// ---------------------------------------------------------------- range tombstones

/// A put that the tombstone hides is still among the records.
pub open spec fn covers_remaining_put(tombstone: TableRangeTombstone, records: Seq<EntryView>) -> bool {
    exists|i: int|
        0 <= i < records.len() && (#[trigger] records[i]).0.kind == ValueKind::Put
            && records[i].0.sequence <= tombstone.sequence.spec_get() && key_in_range(
            records[i].0.user_key,
            tombstone.range,
        )
}

pub fn range_tombstone_covers_remaining_put(tombstone: &TableRangeTombstone, point_records: &[TableEntry]) -> (r: bool)
    ensures
        r == covers_remaining_put(*tombstone, entry_views(point_records@)),
{
    let ghost s = entry_views(point_records@);
    let mut i: usize = 0;
    while i < point_records.len()
        invariant
            i <= point_records@.len(),
            s == entry_views(point_records@),
            forall|k: int|
                0 <= k < i ==> !((#[trigger] s[k]).0.kind == ValueKind::Put && s[k].0.sequence
                    <= tombstone.sequence.spec_get() && key_in_range(s[k].0.user_key, tombstone.range)),
        decreases point_records@.len() - i,
    {
        let key = &point_records[i].0;
        assert(s[i as int] == entry_view(point_records@[i as int]));
        if key.kind() == ValueKind::Put && key.sequence().get() <= tombstone.sequence.get()
            && key_is_in_range(key.user_key(), &tombstone.range) {
            return true;
        }
        i = i + 1;
    }
    false
}

/// In a compaction of the whole keyspace, keeps only the range tombstones
/// that still hide a remaining put; otherwise keeps them all.
pub fn cleanup_range_tombstones(range_tombstones: Vec<TableRangeTombstone>, point_records: &[TableEntry], full_keyspace_compaction: bool) -> (r: Vec<TableRangeTombstone>)
    ensures
        !full_keyspace_compaction ==> r@ == range_tombstones@,
        full_keyspace_compaction ==> r@ == range_tombstones@.filter(
            |t: TableRangeTombstone| covers_remaining_put(t, entry_views(point_records@)),
        ),
{
    if !full_keyspace_compaction {
        return range_tombstones;
    }
    let ghost all = range_tombstones@;
    let ghost pred = |t: TableRangeTombstone| covers_remaining_put(t, entry_views(point_records@));
    let mut rest = range_tombstones;
    let mut kept: Vec<TableRangeTombstone> = Vec::new();
    let ghost mut i: int = 0;
    while rest.len() > 0
        invariant
            0 <= i <= all.len(),
            rest@ == all.skip(i),
            kept@ == all.take(i).filter(pred),
            pred == (|t: TableRangeTombstone| covers_remaining_put(t, entry_views(point_records@))),
        decreases rest@.len(),
    {
        let tombstone = rest.remove(0);
        proof {
            reveal(Seq::filter);
            assert(tombstone == all[i]);
            assert(all.take(i + 1).drop_last() =~= all.take(i));
            assert(all.take(i + 1).last() == tombstone);
            assert(rest@ =~= all.skip(i + 1));
            i = i + 1;
        }
        if range_tombstone_covers_remaining_put(&tombstone, point_records) {
            kept.push(tombstone);
        }
    }
    proof {
        assert(all.take(i) =~= all);
    }
    kept
}

} // verus!
