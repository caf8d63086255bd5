//! What a table records about its contents: the sequence range, the user
//! key bounds (point records and finite range tombstone bounds), and one
//! reference per blob file its values live in.

use vstd::prelude::*;
use crate::blob::{ValueRef, ValueRefView};
use crate::bytes::{bytes_lt, compare_bytes, Order};
use crate::codec::CodecId;
use crate::internal_key::{internal_key_less, key_lt, InternalKey, InternalKeyView};
use crate::table::{TableBlobReference, TableId, TableLevel, TableProperties, TableRangeTombstone};
use crate::table_block::{point_views, PointRecordView, TablePointRecord};
use crate::table_format::{reference_view, reference_views, tombstone_views, ReferenceView, TombstoneView};
use crate::types::{Bound, Sequence, SpecBound};
use crate::error::{Error, ErrorKind, Result};
use crate::filter::{bit_set, byte_len_for, hash_count_for, probed, PointKeyFilter, PrefixFilter};
use crate::options::{FilterPolicy, PrefixFilterPolicy};
use crate::prefix::PrefixExtractor;
use crate::table_file::{block_ranges, data_block_ranges, record_lens};
use crate::table_payload::{layout_views, DataBlockLayout, LayoutView, TableContents};
use crate::blob::TableEntry;

verus! {

// ---------------------------------------------------------------- key bounds

pub open spec fn finite_bound(b: SpecBound) -> Option<Seq<u8>> {
    match b {
        SpecBound::Included(key) => Some(key),
        SpecBound::Excluded(key) => Some(key),
        SpecBound::Unbounded => None,
    }
}

/// The key bounds after widening them by the tombstones whose both ends are
/// finite.
pub open spec fn widened(
    tombstones: Seq<TombstoneView>,
    smallest: Option<Seq<u8>>,
    largest: Option<Seq<u8>>,
) -> (Option<Seq<u8>>, Option<Seq<u8>>)
    decreases tombstones.len(),
{
    if tombstones.len() == 0 {
        (smallest, largest)
    } else {
        let (s, l) = widened(tombstones.drop_last(), smallest, largest);
        let t = tombstones.last();
        match (finite_bound(t.start), finite_bound(t.end)) {
            (Some(a), Some(b)) => (
                if s is None || bytes_lt(a, s->0) {
                    Some(a)
                } else {
                    s
                },
                if l is None || bytes_lt(l->0, b) {
                    Some(b)
                } else {
                    l
                },
            ),
            _ => (s, l),
        }
    }
}

/// The smallest and largest user keys a table covers: its first and last
/// records' keys, widened by its finite tombstone bounds; empty keys when
/// it has neither.
pub open spec fn key_bounds_spec(records: Seq<PointRecordView>, tombstones: Seq<TombstoneView>) -> (Seq<u8>, Seq<u8>) {
    let first = if records.len() > 0 {
        Some(records[0].key.user_key)
    } else {
        None
    };
    let last = if records.len() > 0 {
        Some(records.last().key.user_key)
    } else {
        None
    };
    match widened(tombstones, first, last) {
        (Some(a), Some(b)) => (a, b),
        _ => (Seq::empty(), Seq::empty()),
    }
}

fn bound_bytes(bound: &Bound<Vec<u8>>) -> (r: Option<&Vec<u8>>)
    ensures
        match r {
            Some(key) => finite_bound(crate::types::bound_view(*bound)) == Some(key@),
            None => finite_bound(crate::types::bound_view(*bound)) is None,
        },
{
    match bound {
        Bound::Included(key) => Some(key),
        Bound::Excluded(key) => Some(key),
        Bound::Unbounded => None,
    }
}

pub open spec fn opt_view(v: Option<Vec<u8>>) -> Option<Seq<u8>> {
    match v {
        Some(b) => Some(b@),
        None => None,
    }
}

/// The user key bounds of a table.
pub fn table_key_bounds(records: &[TablePointRecord], tombstones: &[TableRangeTombstone]) -> (r: (Vec<u8>, Vec<u8>))
    ensures
        (r.0@, r.1@) == key_bounds_spec(point_views(records@), tombstone_views(tombstones@)),
{
    let ghost rv = point_views(records@);
    let ghost tv = tombstone_views(tombstones@);
    let mut smallest: Option<Vec<u8>> = None;
    let mut largest: Option<Vec<u8>> = None;
    if records.len() > 0 {
        smallest = Some(crate::bytes::to_vec(records[0].internal_key.user_key()));
        largest = Some(crate::bytes::to_vec(records[records.len() - 1].internal_key.user_key()));
        proof {
            assert(rv[0] == records@[0]@);
            assert(rv.last() == records@[records@.len() - 1]@);
        }
    }
    let ghost first = opt_view(smallest);
    let ghost last = opt_view(largest);
    let mut i: usize = 0;
    proof {
        assert(tv.take(0) =~= Seq::<TombstoneView>::empty());
    }
    while i < tombstones.len()
        invariant
            tv == tombstone_views(tombstones@),
            i <= tombstones@.len(),
            (opt_view(smallest), opt_view(largest)) == widened(tv.take(i as int), first, last),
        decreases tombstones@.len() - i,
    {
        proof {
            assert(tv.take(i + 1).drop_last() =~= tv.take(i as int));
            assert(tv.take(i + 1).last() == tv[i as int]);
            assert(tv[i as int] == crate::table_format::tombstone_view(tombstones@[i as int]));
        }
        let t = &tombstones[i];
        match (bound_bytes(&t.range.start), bound_bytes(&t.range.end)) {
            (Some(start), Some(end)) => {
                let replace_smallest = match &smallest {
                    None => true,
                    Some(current) => crate::bytes::bytes_less(start.as_slice(), current.as_slice()),
                };
                if replace_smallest {
                    smallest = Some(crate::bytes::to_vec(start.as_slice()));
                }
                let replace_largest = match &largest {
                    None => true,
                    Some(current) => crate::bytes::bytes_less(current.as_slice(), end.as_slice()),
                };
                if replace_largest {
                    largest = Some(crate::bytes::to_vec(end.as_slice()));
                }
            },
            _ => {},
        }
        i = i + 1;
    }
    proof {
        assert(tv.take(i as int) =~= tv);
    }
    match (smallest, largest) {
        (Some(a), Some(b)) => (a, b),
        _ => (Vec::new(), Vec::new()),
    }
}

// ---------------------------------------------------------------- blob references

/// The blob file a value lives in and the bytes it takes there.
pub open spec fn blob_target(v: Option<ValueRefView>) -> Option<(u64, u64)> {
    match v {
        Some(ValueRefView::BlobIndex(index)) => Some((index.file_id, index.encoded_len)),
        Some(ValueRefView::Blob { file_id, len, .. }) => Some((file_id, len)),
        _ => None,
    }
}

pub open spec fn saturating(a: int) -> u64 {
    if a > u64::MAX {
        u64::MAX
    } else {
        a as u64
    }
}

/// Index of the first reference whose file id is at least `file_id`.
pub open spec fn reference_slot(refs: Seq<ReferenceView>, file_id: u64) -> int
    decreases refs.len(),
{
    if refs.len() == 0 {
        0
    } else {
        let i = reference_slot(refs.drop_last(), file_id);
        if i < refs.len() - 1 {
            i
        } else if refs.last().file_id >= file_id {
            refs.len() - 1
        } else {
            refs.len() as int
        }
    }
}

/// Counts one more record in the reference of its blob file, starting the
/// reference, in file order, where there is none.
pub open spec fn add_reference(refs: Seq<ReferenceView>, key: InternalKeyView, file_id: u64, bytes: u64) -> Seq<
    ReferenceView,
> {
    let i = reference_slot(refs, file_id);
    if i < refs.len() && refs[i].file_id == file_id {
        let r = refs[i];
        refs.update(
            i,
            ReferenceView {
                file_id,
                referenced_bytes: saturating(r.referenced_bytes + bytes),
                referenced_record_count: saturating(r.referenced_record_count + 1),
                smallest: if key_lt(key, r.smallest) {
                    key
                } else {
                    r.smallest
                },
                largest: if key_lt(r.largest, key) {
                    key
                } else {
                    r.largest
                },
            },
        )
    } else {
        refs.insert(
            i,
            ReferenceView {
                file_id,
                referenced_bytes: bytes,
                referenced_record_count: 1,
                smallest: key,
                largest: key,
            },
        )
    }
}

/// The blob references of a table's records.
pub open spec fn references_spec(records: Seq<PointRecordView>) -> Seq<ReferenceView>
    decreases records.len(),
{
    if records.len() == 0 {
        Seq::empty()
    } else {
        let refs = references_spec(records.drop_last());
        let r = records.last();
        match blob_target(r.value) {
            Some((file_id, bytes)) => add_reference(refs, r.key, file_id, bytes),
            None => refs,
        }
    }
}

proof fn lemma_reference_slot(refs: Seq<ReferenceView>, file_id: u64, i: int)
    requires
        0 <= i <= refs.len(),
        forall|j: int| 0 <= j < i ==> (#[trigger] refs[j]).file_id < file_id,
        i < refs.len() ==> refs[i].file_id >= file_id,
    ensures
        reference_slot(refs, file_id) == i,
    decreases refs.len(),
{
    if refs.len() > 0 {
        let dl = refs.drop_last();
        if i == refs.len() {
            assert forall|j: int| 0 <= j < dl.len() implies (#[trigger] dl[j]).file_id < file_id by {
                assert(dl[j] == refs[j]);
            }
            lemma_reference_slot(dl, file_id, dl.len() as int);
        } else {
            if i < dl.len() {
                assert forall|j: int| 0 <= j < i implies (#[trigger] dl[j]).file_id < file_id by {
                    assert(dl[j] == refs[j]);
                }
                lemma_reference_slot(dl, file_id, i);
            } else {
                assert forall|j: int| 0 <= j < dl.len() implies (#[trigger] dl[j]).file_id < file_id by {
                    assert(dl[j] == refs[j]);
                }
                lemma_reference_slot(dl, file_id, dl.len() as int);
            }
        }
    }
}

fn duplicate_reference(r: &TableBlobReference) -> (out: TableBlobReference)
    ensures
        reference_view(out) == reference_view(*r),
{
    TableBlobReference {
        file_id: r.file_id,
        referenced_bytes: r.referenced_bytes,
        referenced_record_count: r.referenced_record_count,
        smallest_internal_key: r.smallest_internal_key.duplicate(),
        largest_internal_key: r.largest_internal_key.duplicate(),
    }
}

/// One reference per blob file the records' values live in, in file order:
/// the bytes and records it holds for the table, and the smallest and
/// largest internal keys among them.
pub fn table_blob_references(records: &[TablePointRecord]) -> (r: Vec<TableBlobReference>)
    ensures
        reference_views(r@) == references_spec(point_views(records@)),
{
    let ghost rv = point_views(records@);
    let mut refs: Vec<TableBlobReference> = Vec::new();
    let mut k: usize = 0;
    proof {
        assert(rv.take(0) =~= Seq::<PointRecordView>::empty());
        assert(reference_views(refs@) =~= Seq::<ReferenceView>::empty());
    }
    while k < records.len()
        invariant
            rv == point_views(records@),
            k <= records@.len(),
            reference_views(refs@) == references_spec(rv.take(k as int)),
        decreases records@.len() - k,
    {
        proof {
            assert(rv.take(k + 1).drop_last() =~= rv.take(k as int));
            assert(rv.take(k + 1).last() == rv[k as int]);
            assert(rv[k as int] == records@[k as int]@);
        }
        let record = &records[k];
        let target: Option<(u64, u64)> = match &record.value {
            Some(ValueRef::BlobIndex(index)) => Some((index.file_id, index.encoded_len)),
            Some(ValueRef::Blob { file_id, len, .. }) => Some((*file_id, *len)),
            _ => None,
        };
        match target {
            None => {},
            Some((file_id, bytes)) => {
                let ghost before = reference_views(refs@);
                let mut i: usize = 0;
                while i < refs.len() && refs[i].file_id < file_id
                    invariant
                        i <= refs@.len(),
                        before == reference_views(refs@),
                        forall|j: int| 0 <= j < i ==> (#[trigger] refs@[j]).file_id < file_id,
                    decreases refs@.len() - i,
                {
                    i = i + 1;
                }
                proof {
                    assert forall|j: int| 0 <= j < i implies (#[trigger] before[j]).file_id < file_id by {
                        assert(before[j] == reference_view(refs@[j]));
                    }
                    if i < refs@.len() {
                        assert(before[i as int] == reference_view(refs@[i as int]));
                    }
                    lemma_reference_slot(before, file_id, i as int);
                }
                if i < refs.len() && refs[i].file_id == file_id {
                    let current = refs.remove(i);
                    let smallest_internal_key = if internal_key_less(&record.internal_key, &current.smallest_internal_key) {
                        record.internal_key.duplicate()
                    } else {
                        current.smallest_internal_key.duplicate()
                    };
                    let largest_internal_key = if internal_key_less(&current.largest_internal_key, &record.internal_key) {
                        record.internal_key.duplicate()
                    } else {
                        current.largest_internal_key.duplicate()
                    };
                    let updated = TableBlobReference {
                        file_id,
                        referenced_bytes: current.referenced_bytes.saturating_add(bytes),
                        referenced_record_count: current.referenced_record_count.saturating_add(1),
                        smallest_internal_key,
                        largest_internal_key,
                    };
                    refs.insert(i, updated);
                    proof {
                        assert(reference_views(refs@) =~= before.update(i as int, reference_view(updated)));
                    }
                } else {
                    let started = TableBlobReference {
                        file_id,
                        referenced_bytes: bytes,
                        referenced_record_count: 1,
                        smallest_internal_key: record.internal_key.duplicate(),
                        largest_internal_key: record.internal_key.duplicate(),
                    };
                    refs.insert(i, started);
                    proof {
                        assert(reference_views(refs@) =~= before.insert(i as int, reference_view(started)));
                    }
                }
            },
        }
        k = k + 1;
    }
    proof {
        assert(rv.take(k as int) =~= rv);
    }
    refs
}

// ---------------------------------------------------------------- properties

/// The least of the values, if any.
pub open spec fn least(values: Seq<u64>) -> Option<u64>
    decreases values.len(),
{
    if values.len() == 0 {
        None
    } else {
        match least(values.drop_last()) {
            None => Some(values.last()),
            Some(m) => Some(if values.last() < m { values.last() } else { m }),
        }
    }
}

/// The greatest of the values, if any.
pub open spec fn greatest(values: Seq<u64>) -> Option<u64>
    decreases values.len(),
{
    if values.len() == 0 {
        None
    } else {
        match greatest(values.drop_last()) {
            None => Some(values.last()),
            Some(m) => Some(if values.last() > m { values.last() } else { m }),
        }
    }
}

/// The sequences of a table's records, then of its tombstones.
pub open spec fn table_sequences(records: Seq<PointRecordView>, tombstones: Seq<TombstoneView>) -> Seq<u64> {
    records.map_values(|r: PointRecordView| r.key.sequence) + tombstones.map_values(|t: TombstoneView| t.sequence)
}

/// What a table built from these records and tombstones records about
/// itself.
pub open spec fn properties_spec(
    id: TableId,
    level: TableLevel,
    codec: CodecId,
    records: Seq<PointRecordView>,
    tombstones: Seq<TombstoneView>,
) -> crate::table_format::PropertiesView {
    let seqs = table_sequences(records, tombstones);
    let refs = references_spec(records);
    let (smallest_user_key, largest_user_key) = key_bounds_spec(records, tombstones);
    crate::table_format::PropertiesView {
        table: crate::manifest_format::TableRecord {
            id: id.0,
            level: level.0,
            smallest_user_key,
            largest_user_key,
            smallest_sequence: match least(seqs) {
                Some(s) => s,
                None => 0,
            },
            largest_sequence: match greatest(seqs) {
                Some(s) => s,
                None => 0,
            },
            codec,
        },
        blob_file_ids: refs.map_values(|r: ReferenceView| r.file_id),
        blob_references: refs,
    }
}

/// The properties of a table made of these records and tombstones.
pub fn table_properties(
    table_id: TableId,
    level: TableLevel,
    codec: CodecId,
    records: &[TablePointRecord],
    tombstones: &[TableRangeTombstone],
) -> (r: TableProperties)
    ensures
        crate::table_format::properties_view(r) == properties_spec(
            table_id,
            level,
            codec,
            point_views(records@),
            tombstone_views(tombstones@),
        ),
{
    let ghost rv = point_views(records@);
    let ghost tv = tombstone_views(tombstones@);
    let ghost seqs = table_sequences(rv, tv);
    let mut smallest: Option<u64> = None;
    let mut largest: Option<u64> = None;
    let mut i: usize = 0;
    proof {
        assert(seqs.take(0) =~= Seq::<u64>::empty());
    }
    while i < records.len()
        invariant
            rv == point_views(records@),
            tv == tombstone_views(tombstones@),
            seqs == table_sequences(rv, tv),
            i <= records@.len(),
            smallest == least(seqs.take(i as int)),
            largest == greatest(seqs.take(i as int)),
        decreases records@.len() - i,
    {
        proof {
            assert(seqs.take(i + 1).drop_last() =~= seqs.take(i as int));
            assert(seqs[i as int] == rv[i as int].key.sequence);
            assert(rv[i as int] == records@[i as int]@);
        }
        let s = records[i].internal_key.sequence().get();
        smallest = match smallest {
            None => Some(s),
            Some(m) => Some(if s < m { s } else { m }),
        };
        largest = match largest {
            None => Some(s),
            Some(m) => Some(if s > m { s } else { m }),
        };
        i = i + 1;
    }
    let mut j: usize = 0;
    while j < tombstones.len()
        invariant
            rv == point_views(records@),
            tv == tombstone_views(tombstones@),
            seqs == table_sequences(rv, tv),
            j <= tombstones@.len(),
            smallest == least(seqs.take(records@.len() + j)),
            largest == greatest(seqs.take(records@.len() + j)),
        decreases tombstones@.len() - j,
    {
        proof {
            let n = records@.len() + j;
            assert(seqs.take(n + 1).drop_last() =~= seqs.take(n));
            assert(seqs[n] == tv[j as int].sequence);
            assert(tv[j as int] == crate::table_format::tombstone_view(tombstones@[j as int]));
        }
        let s = tombstones[j].sequence.get();
        smallest = match smallest {
            None => Some(s),
            Some(m) => Some(if s < m { s } else { m }),
        };
        largest = match largest {
            None => Some(s),
            Some(m) => Some(if s > m { s } else { m }),
        };
        j = j + 1;
    }
    proof {
        assert(seqs.take(records@.len() + j) =~= seqs);
    }
    let blob_references = table_blob_references(records);
    let mut blob_file_ids: Vec<u64> = Vec::new();
    let mut k: usize = 0;
    while k < blob_references.len()
        invariant
            k <= blob_references@.len(),
            blob_file_ids@ == reference_views(blob_references@).take(k as int).map_values(|r: ReferenceView| r.file_id),
        decreases blob_references@.len() - k,
    {
        blob_file_ids.push(blob_references[k].file_id);
        proof {
            assert(blob_file_ids@ =~= reference_views(blob_references@).take(k + 1).map_values(
                |r: ReferenceView| r.file_id,
            ));
        }
        k = k + 1;
    }
    proof {
        assert(reference_views(blob_references@).take(k as int) =~= reference_views(blob_references@));
    }
    let (smallest_user_key, largest_user_key) = table_key_bounds(records, tombstones);
    TableProperties {
        id: table_id,
        level,
        smallest_user_key,
        largest_user_key,
        smallest_sequence: Sequence::new(
            match smallest {
                Some(s) => s,
                None => 0,
            },
        ),
        largest_sequence: Sequence::new(
            match largest {
                Some(s) => s,
                None => 0,
            },
        ),
        codec,
        blob_file_ids,
        blob_references,
    }
}

// ---------------------------------------------------------------- building a table

/// How a table is written.
#[derive(Debug, Clone, PartialEq, Eq)]
pub struct TableWriteOptions {
    pub codec: CodecId,
    pub block_bytes: usize,
    pub filter_policy: FilterPolicy,
    pub prefix_extractor: PrefixExtractor,
    pub prefix_filter_policy: PrefixFilterPolicy,
    pub blob_threshold_bytes: usize,
    pub rewrite_blob_indexes: bool,
}

/// A limit of the machine on how many records a table holds: few enough
/// that a bloom filter over all their keys, at any number of bits per key,
/// can be sized and held in memory.
pub open spec fn filter_sizable(n: nat) -> bool {
    n * 255 <= u64::MAX - 7 && (n * 255 + 7) / 8 <= usize::MAX
}

/// Whether `n` records are few enough for `filter_sizable`.
pub fn is_filter_sizable(n: usize) -> (r: bool)
    ensures
        r == filter_sizable(n as nat),
{
    let bits = n as u128 * 255;
    bits <= (u64::MAX - 7) as u128 && (bits + 7) / 8 <= usize::MAX as u128
}

/// `f` is the bloom filter over `keys` at `bits` bits per key: sized by the
/// number of keys (at least one bit), and with exactly the bits set that
/// some key probes.
pub open spec fn filter_over(f: PointKeyFilter, keys: Seq<Seq<u8>>, bits: u8) -> bool {
    let b = f.bloom();
    &&& f.well_formed()
    &&& keys.len() == 0 ==> b.spec_bit_count() == 0
    &&& keys.len() > 0 ==> {
        &&& b.spec_bit_count() == if keys.len() * bits == 0 {
            1
        } else {
            keys.len() * bits
        }
        &&& b.spec_hash_count() == hash_count_for(bits)
        &&& forall|idx: u64|
            idx < b.spec_bit_count() ==> (bit_set(b.spec_bytes(), idx) <==> exists|k: int|
                0 <= k < keys.len() && #[trigger] probed(keys[k], b.spec_bit_count(), b.spec_hash_count(), idx))
    }
}

pub open spec fn record_user_keys(records: Seq<PointRecordView>) -> Seq<Seq<u8>> {
    records.map_values(|r: PointRecordView| r.key.user_key)
}

/// The point-key filter of a set of records under the filter policy: none
/// when disabled, else the bloom filter over their user keys.
pub open spec fn point_filter_for(f: Option<PointKeyFilter>, policy: FilterPolicy, records: Seq<PointRecordView>) -> bool {
    match policy {
        FilterPolicy::Disabled => f is None,
        FilterPolicy::Bloom { bits_per_key } => f matches Some(g) && filter_over(g, record_user_keys(records), bits_per_key),
    }
}

/// Builds the point-key filter of a set of records.
pub fn build_point_key_filter(options: &TableWriteOptions, records: &[TablePointRecord]) -> (r: Option<PointKeyFilter>)
    requires
        filter_sizable(records@.len()),
    ensures
        point_filter_for(r, options.filter_policy, point_views(records@)),
{
    match options.filter_policy {
        FilterPolicy::Disabled => None,
        FilterPolicy::Bloom { bits_per_key } => {
            let mut keys: Vec<&[u8]> = Vec::new();
            let mut i: usize = 0;
            while i < records.len()
                invariant
                    i <= records@.len(),
                    keys@.len() == i,
                    forall|k: int| 0 <= k < i ==> (#[trigger] keys@[k])@ == records@[k].internal_key@.user_key,
                decreases records@.len() - i,
            {
                keys.push(records[i].internal_key.user_key());
                i = i + 1;
            }
            proof {
                assert(keys@.len() * bits_per_key <= keys@.len() * 255) by (nonlinear_arith)
                    requires
                        bits_per_key <= 255,
                ;
            }
            let filter = PointKeyFilter::from_keys(keys.as_slice(), bits_per_key);
            proof {
                let uk = record_user_keys(point_views(records@));
                assert forall|k: int| 0 <= k < keys@.len() implies keys@[k]@ == uk[k] by {}
                let b = filter.bloom();
                if keys@.len() > 0 {
                    assert forall|idx: u64| idx < b.spec_bit_count() implies (bit_set(b.spec_bytes(), idx) <==> exists|k: int|
                        0 <= k < uk.len() && #[trigger] probed(uk[k], b.spec_bit_count(), b.spec_hash_count(), idx)) by {
                        if bit_set(b.spec_bytes(), idx) {
                            let k = choose|k: int| 0 <= k < keys@.len() && #[trigger] probed(keys@[k]@, b.spec_bit_count(), b.spec_hash_count(), idx);
                            assert(probed(uk[k], b.spec_bit_count(), b.spec_hash_count(), idx));
                        }
                        if exists|k: int| 0 <= k < uk.len() && #[trigger] probed(uk[k], b.spec_bit_count(), b.spec_hash_count(), idx) {
                            let k = choose|k: int| 0 <= k < uk.len() && #[trigger] probed(uk[k], b.spec_bit_count(), b.spec_hash_count(), idx);
                            assert(probed(keys@[k]@, b.spec_bit_count(), b.spec_hash_count(), idx));
                        }
                    }
                }
            }
            Some(filter)
        },
    }
}

/// The data blocks of a table: the records split into blocks of about
/// `block_bytes` encoded bytes, each with the point-key filter of its
/// records. Prefix filters are not built here.
pub open spec fn data_blocks_spec(blocks: Seq<DataBlockLayout>, records: Seq<PointRecordView>, options: TableWriteOptions) -> bool {
    let ranges = block_ranges(record_lens(records), 0, options.block_bytes as int);
    &&& blocks.len() == ranges.len()
    &&& forall|i: int|
        0 <= i < blocks.len() ==> {
            let b = #[trigger] blocks[i];
            &&& b.start == ranges[i].0
            &&& b.end == ranges[i].1
            &&& point_filter_for(b.point_key_filter, options.filter_policy, records.subrange(b.start as int, b.end as int))
            &&& b.prefix_filter is None
        }
}

/// Splits the records of a table into data blocks.
pub fn build_data_blocks(records: &[TablePointRecord], options: &TableWriteOptions) -> (r: Result<Vec<DataBlockLayout>>)
    requires
        filter_sizable(records@.len()),
    ensures
        r matches Ok(blocks) && data_blocks_spec(blocks@, point_views(records@), *options),
{
    let ranges = data_block_ranges(records, options.block_bytes);
    let ghost specs = block_ranges(record_lens(point_views(records@)), 0, options.block_bytes as int);
    proof {
        crate::table_file::lemma_block_ranges_within(record_lens(point_views(records@)), 0, options.block_bytes as int);
    }
    let mut blocks: Vec<DataBlockLayout> = Vec::new();
    let mut i: usize = 0;
    while i < ranges.len()
        invariant
            i <= ranges@.len(),
            ranges@.map_values(|x: (usize, usize)| (x.0 as int, x.1 as int)) == specs,
            specs == block_ranges(record_lens(point_views(records@)), 0, options.block_bytes as int),
            forall|k: int| 0 <= k < specs.len() ==> 0 <= (#[trigger] specs[k]).0 < specs[k].1 <= records@.len(),
            filter_sizable(records@.len()),
            blocks@.len() == i,
            forall|k: int|
                0 <= k < i ==> {
                    let b = #[trigger] blocks@[k];
                    &&& b.start == specs[k].0
                    &&& b.end == specs[k].1
                    &&& point_filter_for(b.point_key_filter, options.filter_policy, point_views(records@).subrange(b.start as int, b.end as int))
                    &&& b.prefix_filter is None
                },
        decreases ranges@.len() - i,
    {
        let (start, end) = ranges[i];
        proof {
            assert(specs[i as int] == (start as int, end as int));
        }
        let slice = vstd::slice::slice_subrange(records, start, end);
        proof {
            assert(point_views(slice@) =~= point_views(records@).subrange(start as int, end as int));
            assert(filter_sizable(slice@.len())) by (nonlinear_arith)
                requires
                    slice@.len() <= records@.len(),
                    filter_sizable(records@.len()),
            ;
        }
        let point_key_filter = build_point_key_filter(options, slice);
        blocks.push(DataBlockLayout { start, end, point_key_filter, prefix_filter: None });
        i = i + 1;
    }
    Ok(blocks)
}

/// What a table of these records and range tombstones holds: its
/// properties, its data blocks, the point-key filter over all its keys, and
/// no prefix filter.
pub fn build_table_contents(table_id: TableId, level: TableLevel, options: &TableWriteOptions, point_records: Vec<TablePointRecord>, range_tombstones: Vec<TableRangeTombstone>) -> (r: Result<TableContents>)
    requires
        filter_sizable(point_records@.len()),
    ensures
        r matches Ok(c) && crate::table_format::properties_view(c.properties) == properties_spec(
            table_id,
            level,
            options.codec,
            point_views(point_records@),
            tombstone_views(range_tombstones@),
        ) && c.point_records@ == point_records@ && c.range_tombstones@ == range_tombstones@ && data_blocks_spec(
            c.blocks@,
            point_views(point_records@),
            *options,
        ) && point_filter_for(c.point_key_filter, options.filter_policy, point_views(point_records@))
            && c.prefix_filter is None,
{
    let properties = table_properties(table_id, level, options.codec, point_records.as_slice(), range_tombstones.as_slice());
    let point_key_filter = build_point_key_filter(options, point_records.as_slice());
    let blocks = match build_data_blocks(point_records.as_slice(), options) {
        Ok(b) => b,
        Err(e) => return Err(e),
    };
    Ok(TableContents { properties, point_records, blocks, range_tombstones, point_key_filter, prefix_filter: None })
}

/// The records of a table in internal-key order; a table needs a record or
/// a range tombstone.
pub fn prepare_table_records(point_records: Vec<TableEntry>, range_tombstone_count: usize) -> (r: Result<Vec<TableEntry>>)
    ensures
        point_records@.len() == 0 && range_tombstone_count == 0 ==> (r matches Err(e) && e.kind()
            == ErrorKind::InvalidOptions && e.message_view() == "cannot write an empty table"@),
        !(point_records@.len() == 0 && range_tombstone_count == 0) ==> (r matches Ok(sorted)
            && sorted@.to_multiset() == point_records@.to_multiset() && crate::internal_key::keys_sorted(
            crate::lsm::compact::view_keys(crate::lsm::compact::entry_views(sorted@)),
        )),
{
    if point_records.len() == 0 && range_tombstone_count == 0 {
        return Err(Error::invalid_options("cannot write an empty table"));
    }
    Ok(crate::lsm::compact::sort_entries(point_records))
}

} // verus!
