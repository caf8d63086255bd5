//! Blob garbage collection decisions: how many bytes of each blob file the
//! live tables still refer to, which files are worth rewriting and in what
//! order, and what a run reports.

use vstd::prelude::*;
use std::collections::BTreeMap;
use crate::blob_accounting::{input_blob_bytes, input_blob_bytes_by_file};
use crate::options::BlobGcRatio;
use crate::blob::{BlobIndex, ValueRef};
use crate::codec::CodecId;
use crate::internal_key::{internal_key_less, key_le, lemma_key_order_antisym, lemma_key_order_trans, InternalKey};
use crate::error::{Error, ErrorKind, Result};
use crate::table::{TableId, TableLevel, TableProperties, TableRangeTombstone};
use crate::table_block::TablePointRecord;

verus! {

/// How much of a blob file the live tables refer to, and how large it is.
#[derive(Debug, Clone, Copy, PartialEq, Eq, Structural)]
pub struct BlobFileUsage {
    pub file_id: u64,
    pub live_bytes: u64,
    pub total_bytes: u64,
}

/// A blob file chosen for rewriting.
#[derive(Debug, Clone, Copy, PartialEq, Eq, Structural)]
pub struct BlobGcCandidate {
    pub file_id: u64,
    pub total_bytes: u64,
    pub live_bytes: u64,
}

/// `a - b`, or 0 where `b` is larger.
pub open spec fn sat_sub(a: u64, b: u64) -> u64 {
    if a >= b {
        (a - b) as u64
    } else {
        0
    }
}

/// `a + b`, or `u64::MAX` where the sum does not fit.
pub open spec fn sat_add(a: u64, b: u64) -> u64 {
    if a + b <= u64::MAX {
        (a + b) as u64
    } else {
        u64::MAX
    }
}

/// The bytes of a candidate that no live table refers to.
pub open spec fn discardable(c: BlobGcCandidate) -> u64 {
    sat_sub(c.total_bytes, c.live_bytes)
}

/// A file is worth collecting when it is at least `min_file_bytes` large,
/// some of it is discardable, and the discardable share reaches `ratio`.
pub open spec fn collectable(u: BlobFileUsage, min_file_bytes: u64, ratio: BlobGcRatio) -> bool {
    let d = sat_sub(u.total_bytes, u.live_bytes);
    &&& u.total_bytes >= min_file_bytes
    &&& d != 0
    &&& u.total_bytes != 0
    &&& d * 1_000_000 >= u.total_bytes * ratio.spec_millionths()
}

pub open spec fn candidate_of(u: BlobFileUsage) -> BlobGcCandidate {
    BlobGcCandidate { file_id: u.file_id, total_bytes: u.total_bytes, live_bytes: u.live_bytes }
}

/// `c` placed after every candidate with at least as many discardable bytes
/// and before every one with fewer, each group keeping its order.
pub open spec fn insert_by_discardable(s: Seq<BlobGcCandidate>, c: BlobGcCandidate) -> Seq<BlobGcCandidate> {
    s.filter(|x: BlobGcCandidate| discardable(x) >= discardable(c)) + seq![c] + s.filter(
        |x: BlobGcCandidate| discardable(x) < discardable(c),
    )
}

/// Candidates ordered by discardable bytes, most first; candidates with
/// equal discardable bytes keep the order they were given in.
pub open spec fn by_discardable(s: Seq<BlobGcCandidate>) -> Seq<BlobGcCandidate>
    decreases s.len(),
{
    if s.len() == 0 {
        s
    } else {
        insert_by_discardable(by_discardable(s.drop_last()), s.last())
    }
}

/// The candidates among blob files, in the order the files were given.
pub open spec fn collectable_candidates(files: Seq<BlobFileUsage>, min_file_bytes: u64, ratio: BlobGcRatio) -> Seq<BlobGcCandidate>
    decreases files.len(),
{
    if files.len() == 0 {
        Seq::empty()
    } else {
        let rest = collectable_candidates(files.drop_last(), min_file_bytes, ratio);
        if collectable(files.last(), min_file_bytes, ratio) {
            rest.push(candidate_of(files.last()))
        } else {
            rest
        }
    }
}

pub open spec fn sorted_by_discardable(s: Seq<BlobGcCandidate>) -> bool {
    forall|i: int, j: int| 0 <= i < j < s.len() ==> discardable(#[trigger] s[i]) >= discardable(#[trigger] s[j])
}

/// Bytes of each blob file that the live tables refer to, summed with
/// saturation over every reference of every table.
pub fn live_blob_bytes_by_file(live_tables: &[TableProperties]) -> (r: BTreeMap<u64, u64>)
    ensures
        r@ == input_blob_bytes(live_tables@),
{
    input_blob_bytes_by_file(live_tables)
}

fn saturating_sub(a: u64, b: u64) -> (r: u64)
    ensures
        r == sat_sub(a, b),
{
    if a >= b {
        a - b
    } else {
        0
    }
}

fn saturating_add(a: u64, b: u64) -> (r: u64)
    ensures
        r == sat_add(a, b),
{
    if a <= u64::MAX - b {
        a + b
    } else {
        u64::MAX
    }
}

/// Places a candidate among candidates ordered by discardable bytes.
fn insert_candidate(sorted: Vec<BlobGcCandidate>, c: BlobGcCandidate) -> (r: Vec<BlobGcCandidate>)
    ensures
        r@ == insert_by_discardable(sorted@, c),
{
    let d = saturating_sub(c.total_bytes, c.live_bytes);
    let ghost ge = |x: BlobGcCandidate| discardable(x) >= discardable(c);
    let ghost lt = |x: BlobGcCandidate| discardable(x) < discardable(c);
    let mut front: Vec<BlobGcCandidate> = Vec::new();
    let mut back: Vec<BlobGcCandidate> = Vec::new();
    let mut i: usize = 0;
    while i < sorted.len()
        invariant
            i <= sorted@.len(),
            d == discardable(c),
            ge == (|x: BlobGcCandidate| discardable(x) >= discardable(c)),
            lt == (|x: BlobGcCandidate| discardable(x) < discardable(c)),
            front@ == sorted@.take(i as int).filter(ge),
            back@ == sorted@.take(i as int).filter(lt),
        decreases sorted@.len() - i,
    {
        let x = sorted[i];
        proof {
            reveal(Seq::filter);
            assert(sorted@.take(i + 1).drop_last() =~= sorted@.take(i as int));
            assert(sorted@.take(i + 1).last() == x);
        }
        if saturating_sub(x.total_bytes, x.live_bytes) >= d {
            front.push(x);
        } else {
            back.push(x);
        }
        i = i + 1;
    }
    proof {
        assert(sorted@.take(i as int) =~= sorted@);
    }
    front.push(c);
    let mut j: usize = 0;
    let ghost head = front@;
    while j < back.len()
        invariant
            j <= back@.len(),
            front@ == head + back@.take(j as int),
        decreases back@.len() - j,
    {
        front.push(back[j]);
        proof {
            assert(back@.take(j + 1) =~= back@.take(j as int).push(back@[j as int]));
        }
        j = j + 1;
    }
    proof {
        assert(back@.take(j as int) =~= back@);
        assert(front@ =~= insert_by_discardable(sorted@, c));
    }
    front
}

/// The blob files worth rewriting: those at least `min_file_bytes` large
/// with discardable bytes whose share of the file reaches `ratio`, ordered
/// by discardable bytes, most first, files with equal discardable bytes in
/// the order given.
pub fn choose_blob_gc_candidates(files: &[BlobFileUsage], min_file_bytes: u64, ratio: BlobGcRatio) -> (r: Vec<BlobGcCandidate>)
    ensures
        r@ == by_discardable(collectable_candidates(files@, min_file_bytes, ratio)),
        sorted_by_discardable(r@),
{
    let mut candidates: Vec<BlobGcCandidate> = Vec::new();
    let mut i: usize = 0;
    proof {
        assert(files@.take(0) =~= Seq::<BlobFileUsage>::empty());
    }
    while i < files.len()
        invariant
            i <= files@.len(),
            candidates@ == by_discardable(collectable_candidates(files@.take(i as int), min_file_bytes, ratio)),
        decreases files@.len() - i,
    {
        let f = files[i];
        proof {
            assert(files@.take(i + 1).drop_last() =~= files@.take(i as int));
            assert(files@.take(i + 1).last() == f);
        }
        let discardable_bytes = saturating_sub(f.total_bytes, f.live_bytes);
        if f.total_bytes >= min_file_bytes && discardable_bytes != 0 && ratio.should_collect(
            discardable_bytes,
            f.total_bytes,
        ) {
            let c = BlobGcCandidate { file_id: f.file_id, total_bytes: f.total_bytes, live_bytes: f.live_bytes };
            proof {
                let s = collectable_candidates(files@.take(i + 1), min_file_bytes, ratio);
                assert(s.drop_last() == collectable_candidates(files@.take(i as int), min_file_bytes, ratio));
                assert(s.last() == c);
            }
            candidates = insert_candidate(candidates, c);
        }
        i = i + 1;
    }
    proof {
        assert(files@.take(i as int) =~= files@);
        lemma_candidates_sorted(collectable_candidates(files@, min_file_bytes, ratio));
    }
    candidates
}

/// What a blob GC run over `candidates` reports: the bytes of the files
/// read, the bytes dropped, and the files that become obsolete.
pub open spec fn input_bytes_of(candidates: Seq<BlobGcCandidate>) -> u64
    decreases candidates.len(),
{
    if candidates.len() == 0 {
        0
    } else {
        sat_add(input_bytes_of(candidates.drop_last()), candidates.last().total_bytes)
    }
}

pub open spec fn discarded_bytes_of(candidates: Seq<BlobGcCandidate>) -> u64
    decreases candidates.len(),
{
    if candidates.len() == 0 {
        0
    } else {
        sat_add(discarded_bytes_of(candidates.drop_last()), discardable(candidates.last()))
    }
}

/// The bytes a blob GC run reads, the bytes it drops (each summed with
/// saturation), and the ids of the files it makes obsolete, in the order of
/// the candidates.
pub fn blob_gc_accounting(candidates: &[BlobGcCandidate]) -> (r: (u64, u64, Vec<u64>))
    ensures
        r.0 == input_bytes_of(candidates@),
        r.1 == discarded_bytes_of(candidates@),
        r.2@ == candidates@.map_values(|c: BlobGcCandidate| c.file_id),
{
    let mut input_bytes: u64 = 0;
    let mut discarded_bytes: u64 = 0;
    let mut ids: Vec<u64> = Vec::new();
    let mut i: usize = 0;
    while i < candidates.len()
        invariant
            i <= candidates@.len(),
            input_bytes == input_bytes_of(candidates@.take(i as int)),
            discarded_bytes == discarded_bytes_of(candidates@.take(i as int)),
            ids@ == candidates@.take(i as int).map_values(|c: BlobGcCandidate| c.file_id),
        decreases candidates@.len() - i,
    {
        let c = candidates[i];
        proof {
            assert(candidates@.take(i + 1).drop_last() =~= candidates@.take(i as int));
            assert(candidates@.take(i + 1).last() == c);
        }
        input_bytes = saturating_add(input_bytes, c.total_bytes);
        discarded_bytes = saturating_add(discarded_bytes, saturating_sub(c.total_bytes, c.live_bytes));
        ids.push(c.file_id);
        proof {
            assert(ids@ =~= candidates@.take(i + 1).map_values(|c: BlobGcCandidate| c.file_id));
        }
        i = i + 1;
    }
    proof {
        assert(candidates@.take(i as int) =~= candidates@);
    }
    (input_bytes, discarded_bytes, ids)
}

proof fn lemma_filter_sorted(t: Seq<BlobGcCandidate>, p: spec_fn(BlobGcCandidate) -> bool)
    requires
        sorted_by_discardable(t),
    ensures
        sorted_by_discardable(t.filter(p)),
        forall|k: int| 0 <= k < t.filter(p).len() ==> t.contains(#[trigger] t.filter(p)[k]),
    decreases t.len(),
{
    reveal(Seq::filter);
    if t.len() > 0 {
        let u = t.drop_last();
        assert(sorted_by_discardable(u));
        lemma_filter_sorted(u, p);
        assert(t.filter(p) == if p(t.last()) { u.filter(p).push(t.last()) } else { u.filter(p) });
        assert forall|k: int| 0 <= k < u.filter(p).len() implies discardable(#[trigger] u.filter(p)[k]) >= discardable(
            t.last(),
        ) by {
            let x = u.filter(p)[k];
            assert(u.contains(x));
            let m = choose|m: int| 0 <= m < u.len() && u[m] == x;
            assert(t[m] == x);
            assert(t[t.len() - 1] == t.last());
        }
        assert forall|k: int| 0 <= k < t.filter(p).len() implies t.contains(#[trigger] t.filter(p)[k]) by {
            if k < u.filter(p).len() {
                let x = u.filter(p)[k];
                assert(u.contains(x));
                let m = choose|m: int| 0 <= m < u.len() && u[m] == x;
                assert(t[m] == x);
            } else {
                assert(t[t.len() - 1] == t.last());
            }
        }
    }
}

/// Candidates come out ordered by discardable bytes, most first.
pub proof fn lemma_candidates_sorted(s: Seq<BlobGcCandidate>)
    ensures
        sorted_by_discardable(by_discardable(s)),
    decreases s.len(),
{
    if s.len() > 0 {
        let t = by_discardable(s.drop_last());
        let c = s.last();
        lemma_candidates_sorted(s.drop_last());
        let ge = |x: BlobGcCandidate| discardable(x) >= discardable(c);
        let lt = |x: BlobGcCandidate| discardable(x) < discardable(c);
        lemma_filter_sorted(t, ge);
        lemma_filter_sorted(t, lt);
        let f = t.filter(ge);
        let b = t.filter(lt);
        assert forall|k: int| 0 <= k < f.len() implies discardable(#[trigger] f[k]) >= discardable(c) by {
            t.lemma_filter_pred(ge, k);
        }
        assert forall|k: int| 0 <= k < b.len() implies discardable(#[trigger] b[k]) < discardable(c) by {
            t.lemma_filter_pred(lt, k);
        }
        let r = f + seq![c] + b;
        assert(by_discardable(s) == r);
        assert forall|i: int, j: int| 0 <= i < j < r.len() implies discardable(#[trigger] r[i]) >= discardable(
            #[trigger] r[j],
        ) by {
            if j < f.len() {
                assert(r[i] == f[i] && r[j] == f[j]);
            } else if j == f.len() {
                assert(r[i] == f[i]);
            } else if i > f.len() {
                assert(r[i] == b[i - f.len() - 1] && r[j] == b[j - f.len() - 1]);
            } else if i == f.len() {
                assert(r[j] == b[j - f.len() - 1]);
            } else {
                assert(r[i] == f[i] && r[j] == b[j - f.len() - 1]);
            }
        }
    }
}

/// A table that blob garbage collection rewrites: its records get the new
/// blob indexes of the values they refer to.
pub struct BlobGcRewriteTable {
    pub input_table_id: TableId,
    pub output_table_id: TableId,
    pub level: TableLevel,
    pub point_records: Vec<TablePointRecord>,
    pub range_tombstones: Vec<TableRangeTombstone>,
}

/// Where a rewritten value's record lies: a table and a record in it.
#[derive(Debug, Clone, Copy, PartialEq, Eq, Structural)]
pub struct BlobGcRewritePosition {
    pub table_index: usize,
    pub record_index: usize,
}

pub open spec fn records_of(tables: Seq<BlobGcRewriteTable>) -> Seq<Seq<TablePointRecord>> {
    tables.map_values(|t: BlobGcRewriteTable| t.point_records@)
}

pub open spec fn position_valid(records: Seq<Seq<TablePointRecord>>, p: BlobGcRewritePosition) -> bool {
    p.table_index < records.len() && p.record_index < records[p.table_index as int].len()
}

/// The records after the record at `p` refers to its value through `index`.
pub open spec fn with_index(records: Seq<Seq<TablePointRecord>>, p: BlobGcRewritePosition, index: BlobIndex) -> Seq<Seq<TablePointRecord>> {
    let t = p.table_index as int;
    let k = p.record_index as int;
    records.update(
        t,
        records[t].update(
            k,
            TablePointRecord { internal_key: records[t][k].internal_key, value: Some(ValueRef::BlobIndex(index)) },
        ),
    )
}

/// The records after the first `n` rewrites.
pub open spec fn with_indexes(records: Seq<Seq<TablePointRecord>>, positions: Seq<BlobGcRewritePosition>, indexes: Seq<BlobIndex>, n: int) -> Seq<Seq<TablePointRecord>>
    decreases n,
{
    if n <= 0 {
        records
    } else {
        with_index(with_indexes(records, positions, indexes, n - 1), positions[n - 1], indexes[n - 1])
    }
}

/// The bytes of the new blob values, summed with saturation.
pub open spec fn indexed_bytes(indexes: Seq<BlobIndex>) -> u64
    decreases indexes.len(),
{
    if indexes.len() == 0 {
        0
    } else {
        sat_add(indexed_bytes(indexes.drop_last()), indexes.last().encoded_len)
    }
}

/// Every rewrite before `n` names a record that exists.
pub open spec fn positions_valid(records: Seq<Seq<TablePointRecord>>, positions: Seq<BlobGcRewritePosition>, n: int) -> bool {
    forall|k: int| 0 <= k < n ==> position_valid(records, #[trigger] positions[k])
}

proof fn lemma_shape_kept(records: Seq<Seq<TablePointRecord>>, positions: Seq<BlobGcRewritePosition>, indexes: Seq<BlobIndex>, n: int)
    requires
        0 <= n <= positions.len(),
        n <= indexes.len(),
        positions_valid(records, positions, n),
    ensures
        with_indexes(records, positions, indexes, n).len() == records.len(),
        forall|t: int|
            0 <= t < records.len() ==> #[trigger] with_indexes(records, positions, indexes, n)[t].len() == records[t].len(),
    decreases n,
{
    if n > 0 {
        lemma_shape_kept(records, positions, indexes, n - 1);
    }
}

/// Points each rewritten record at its new blob value and returns the bytes
/// of the new values. Fails with `Corruption` when the records and indexes
/// differ in number (changing nothing), or at the first position that names
/// no record (after the rewrites before it); the other fields of the tables
/// stay as they were.
pub fn apply_blob_gc_indexes(
    tables: &mut Vec<BlobGcRewriteTable>,
    positions: &[BlobGcRewritePosition],
    indexes: &[BlobIndex],
) -> (r: Result<u64>)
    ensures
        final(tables)@.len() == old(tables)@.len(),
        forall|t: int|
            0 <= t < old(tables)@.len() ==> {
                &&& (#[trigger] final(tables)@[t]).input_table_id == old(tables)@[t].input_table_id
                &&& final(tables)@[t].output_table_id == old(tables)@[t].output_table_id
                &&& final(tables)@[t].level == old(tables)@[t].level
                &&& final(tables)@[t].range_tombstones@ == old(tables)@[t].range_tombstones@
            },
        positions@.len() != indexes@.len() ==> records_of(final(tables)@) == records_of(old(tables)@)
            && (r matches Err(e) && e.kind() == ErrorKind::Corruption
            && e.message_view() == "blob GC rewrite record count does not match blob indexes"@),
        positions@.len() == indexes@.len() && positions_valid(records_of(old(tables)@), positions@, positions@.len() as int)
            ==> r == Ok::<u64, Error>(indexed_bytes(indexes@)) && records_of(final(tables)@) == with_indexes(
            records_of(old(tables)@),
            positions@,
            indexes@,
            positions@.len() as int,
        ),
        positions@.len() == indexes@.len() && !positions_valid(records_of(old(tables)@), positions@, positions@.len() as int)
            ==> exists|n: int|
            0 <= n < positions@.len() && positions_valid(records_of(old(tables)@), positions@, n) && !position_valid(
                records_of(old(tables)@),
                #[trigger] positions@[n],
            ) && records_of(final(tables)@) == with_indexes(records_of(old(tables)@), positions@, indexes@, n)
                && (r matches Err(e) && e.kind() == ErrorKind::Corruption
                && e.message_view() == "blob GC rewrite record position is invalid"@),
{
    let ghost start = tables@;
    let ghost recs = records_of(start);
    if positions.len() != indexes.len() {
        return Err(Error::corruption("blob GC rewrite record count does not match blob indexes"));
    }
    let mut output_bytes: u64 = 0;
    let mut i: usize = 0;
    proof {
        assert(indexes@.take(0) =~= Seq::<BlobIndex>::empty());
        assert(records_of(tables@) =~= with_indexes(recs, positions@, indexes@, 0));
    }
    while i < indexes.len()
        invariant
            i <= indexes@.len(),
            positions@.len() == indexes@.len(),
            recs == records_of(start),
            start == old(tables)@,
            output_bytes == indexed_bytes(indexes@.take(i as int)),
            positions_valid(recs, positions@, i as int),
            records_of(tables@) == with_indexes(recs, positions@, indexes@, i as int),
            tables@.len() == start.len(),
            forall|t: int|
                0 <= t < start.len() ==> {
                    &&& (#[trigger] tables@[t]).input_table_id == start[t].input_table_id
                    &&& tables@[t].output_table_id == start[t].output_table_id
                    &&& tables@[t].level == start[t].level
                    &&& tables@[t].range_tombstones@ == start[t].range_tombstones@
                },
        decreases indexes@.len() - i,
    {
        let p = positions[i];
        proof {
            lemma_shape_kept(recs, positions@, indexes@, i as int);
            assert(records_of(tables@).len() == tables@.len());
        }
        let valid = p.table_index < tables.len() && p.record_index < tables[p.table_index].point_records.len();
        proof {
            if p.table_index < tables@.len() {
                assert(records_of(tables@)[p.table_index as int] == tables@[p.table_index as int].point_records@);
            }
            assert(valid == position_valid(recs, p));
        }
        if !valid {
            proof {
                assert(!position_valid(recs, positions@[i as int]));
            }
            return Err(Error::corruption("blob GC rewrite record position is invalid"));
        }
        let index = indexes[i];
        let ghost before = tables@;
        let mut table = tables.remove(p.table_index);
        let record = table.point_records.remove(p.record_index);
        table.point_records.insert(
            p.record_index,
            TablePointRecord { internal_key: record.internal_key, value: Some(ValueRef::BlobIndex(index)) },
        );
        tables.insert(p.table_index, table);
        proof {
            let t = p.table_index as int;
            let k = p.record_index as int;
            assert forall|u: int| 0 <= u < tables@.len() implies #[trigger] tables@[u] == if u == t {
                tables@[t]
            } else {
                before[u]
            } by {}
            assert(tables@[t].point_records@ =~= before[t].point_records@.update(
                k,
                TablePointRecord { internal_key: before[t].point_records@[k].internal_key, value: Some(ValueRef::BlobIndex(index)) },
            ));
            assert(records_of(tables@) =~= with_index(records_of(before), p, index));
            assert(indexes@.take(i + 1).drop_last() =~= indexes@.take(i as int));
            assert(indexes@.take(i + 1).last() == index);
            assert forall|k2: int| 0 <= k2 < i + 1 implies position_valid(recs, #[trigger] positions@[k2]) by {}
        }
        output_bytes = if output_bytes <= u64::MAX - index.encoded_len {
            output_bytes + index.encoded_len
        } else {
            u64::MAX
        };
        i = i + 1;
    }
    proof {
        assert(indexes@.take(i as int) =~= indexes@);
    }
    Ok(output_bytes)
}

// ---------------------------------------------------------------- rewrite plan

/// A live table as blob garbage collection sees it: the blob files it refers
/// to and its records.
pub struct BlobGcTableInput {
    pub blob_file_ids: Vec<u64>,
    pub point_records: Vec<TablePointRecord>,
}

/// A record to rewrite: where it lies among the chosen tables, and the
/// index of its current blob value.
#[derive(Debug, Clone, Copy, PartialEq, Eq, Structural)]
pub struct BlobGcRewriteTarget {
    pub position: BlobGcRewritePosition,
    pub index: BlobIndex,
}

/// What blob garbage collection rewrites: the id of the new blob file, the
/// tables chosen (by their place among the live tables) with the id each
/// output table takes, and the records whose values move.
pub struct BlobGcRewriteSelection {
    pub new_blob_file_id: u64,
    pub chosen_tables: Vec<usize>,
    pub output_table_ids: Vec<TableId>,
    pub targets: Vec<BlobGcRewriteTarget>,
}

/// A table refers to one of the candidate blob files.
pub open spec fn refers_to_candidate(t: BlobGcTableInput, candidates: Seq<u64>) -> bool {
    exists|k: int| 0 <= k < t.blob_file_ids@.len() && candidates.contains(#[trigger] t.blob_file_ids@[k])
}

/// The places of the tables that refer to a candidate, in order.
pub open spec fn chosen_tables(tables: Seq<BlobGcTableInput>, candidates: Seq<u64>) -> Seq<usize>
    decreases tables.len(),
{
    if tables.len() == 0 {
        Seq::empty()
    } else {
        let rest = chosen_tables(tables.drop_last(), candidates);
        if refers_to_candidate(tables.last(), candidates) {
            rest.push((tables.len() - 1) as usize)
        } else {
            rest
        }
    }
}

/// The records of one chosen table, the `j`-th, whose value is a blob index
/// into a candidate file, in record order.
pub open spec fn record_targets(records: Seq<TablePointRecord>, j: usize, candidates: Seq<u64>) -> Seq<BlobGcRewriteTarget>
    decreases records.len(),
{
    if records.len() == 0 {
        Seq::empty()
    } else {
        let rest = record_targets(records.drop_last(), j, candidates);
        match records.last().value {
            Some(ValueRef::BlobIndex(index)) => if candidates.contains(index.file_id) {
                rest.push(
                    BlobGcRewriteTarget {
                        position: BlobGcRewritePosition { table_index: j, record_index: (records.len() - 1) as usize },
                        index,
                    },
                )
            } else {
                rest
            },
            _ => rest,
        }
    }
}

/// The records to rewrite of the first `n` chosen tables.
pub open spec fn chosen_targets(tables: Seq<BlobGcTableInput>, chosen: Seq<usize>, candidates: Seq<u64>, n: int) -> Seq<BlobGcRewriteTarget>
    decreases n,
{
    if n <= 0 {
        Seq::empty()
    } else {
        chosen_targets(tables, chosen, candidates, n - 1) + record_targets(
            tables[chosen[n - 1] as int].point_records@,
            (n - 1) as usize,
            candidates,
        )
    }
}

/// A table whose blob file ids include a candidate.
pub open spec fn has_candidate_file(t: BlobGcTableInput, candidates: Seq<u64>, k: int) -> bool {
    0 <= k < t.blob_file_ids@.len() && candidates.contains(t.blob_file_ids@[k])
}

/// Blob garbage collection chooses exactly the tables that name a candidate
/// blob file among their blob file ids, in table order.
pub proof fn lemma_chosen_tables_exact(tables: Seq<BlobGcTableInput>, candidates: Seq<u64>)
    requires
        tables.len() <= usize::MAX,
    ensures
        forall|t: usize|
            t < tables.len() ==> (#[trigger] chosen_tables(tables, candidates).contains(t) <==> exists|k: int|
                #[trigger] has_candidate_file(tables[t as int], candidates, k)),
        forall|a: int, b: int|
            0 <= a < b < chosen_tables(tables, candidates).len() ==> (#[trigger] chosen_tables(tables, candidates)[a])
                < (#[trigger] chosen_tables(tables, candidates)[b]),
        forall|a: int|
            0 <= a < chosen_tables(tables, candidates).len() ==> (#[trigger] chosen_tables(tables, candidates)[a])
                < tables.len(),
        chosen_tables(tables, candidates).len() <= tables.len(),
    decreases tables.len(),
{
    if tables.len() > 0 {
        let d = tables.drop_last();
        lemma_chosen_tables_exact(d, candidates);
        let rest = chosen_tables(d, candidates);
        let last = tables.len() - 1;
        let t_last = tables[last];
        assert(refers_to_candidate(t_last, candidates) <==> exists|k: int| #[trigger] has_candidate_file(t_last, candidates, k)) by {
            if refers_to_candidate(t_last, candidates) {
                let k = choose|k: int| 0 <= k < t_last.blob_file_ids@.len() && candidates.contains(#[trigger] t_last.blob_file_ids@[k]);
                assert(has_candidate_file(t_last, candidates, k));
            }
            if exists|k: int| #[trigger] has_candidate_file(t_last, candidates, k) {
                let k = choose|k: int| #[trigger] has_candidate_file(t_last, candidates, k);
                assert(candidates.contains(t_last.blob_file_ids@[k]));
            }
        }
        let all = chosen_tables(tables, candidates);
        if refers_to_candidate(t_last, candidates) {
            assert(all == rest.push(last as usize));
        } else {
            assert(all == rest);
        }
        assert forall|x: usize| all.contains(x) <==> (rest.contains(x) || (refers_to_candidate(t_last, candidates) && x == last as usize)) by {
            if all.contains(x) {
                let m = choose|m: int| 0 <= m < all.len() && all[m] == x;
                if m < rest.len() {
                    assert(rest[m] == x);
                }
            }
            if rest.contains(x) {
                let m = choose|m: int| 0 <= m < rest.len() && rest[m] == x;
                assert(all[m] == x);
            }
            if refers_to_candidate(t_last, candidates) && x == last as usize {
                assert(all[rest.len() as int] == x);
            }
        }
        assert forall|t: usize|
            t < tables.len() implies (#[trigger] all.contains(t) <==> exists|k: int|
                #[trigger] has_candidate_file(tables[t as int], candidates, k)) by {
            if t < last {
                assert(d[t as int] == tables[t as int]);
                assert(rest.contains(t) <==> exists|k: int| #[trigger] has_candidate_file(d[t as int], candidates, k));
            } else {
                if rest.contains(t) {
                    let m = choose|m: int| 0 <= m < rest.len() && rest[m] == t;
                    assert(rest[m] < d.len());
                }
            }
        }
        assert forall|a: int, b: int| 0 <= a < b < all.len() implies (#[trigger] all[a]) < (#[trigger] all[b]) by {
            if b < rest.len() {
                assert(all[a] == rest[a] && all[b] == rest[b]);
            } else {
                assert(all[a] == rest[a]);
                assert(rest[a] < d.len());
            }
        }
        assert forall|a: int| 0 <= a < all.len() implies (#[trigger] all[a]) < tables.len() by {
            if a < rest.len() {
                assert(all[a] == rest[a]);
            }
        }
    }
}

/// The targets of one chosen table are exactly its records whose value is a
/// blob index into a candidate file, in record order, each with its place.
pub proof fn lemma_record_targets_exact(records: Seq<TablePointRecord>, j: usize, candidates: Seq<u64>)
    ensures
        forall|r: int, index: BlobIndex|
            0 <= r < records.len() && records[r].value == Some(ValueRef::BlobIndex(index)) && candidates.contains(
                index.file_id,
            ) ==> #[trigger] record_targets(records, j, candidates).contains(
                BlobGcRewriteTarget { position: BlobGcRewritePosition { table_index: j, record_index: r as usize }, index },
            ),
        records.len() <= usize::MAX ==> forall|m: int|
            0 <= m < record_targets(records, j, candidates).len() ==> {
                let t = #[trigger] record_targets(records, j, candidates)[m];
                &&& t.position.table_index == j
                &&& t.position.record_index < records.len()
                &&& records[t.position.record_index as int].value == Some(ValueRef::BlobIndex(t.index))
                &&& candidates.contains(t.index.file_id)
            },
    decreases records.len(),
{
    if records.len() > 0 {
        let d = records.drop_last();
        lemma_record_targets_exact(d, j, candidates);
        let rest = record_targets(d, j, candidates);
        let all = record_targets(records, j, candidates);
        let last = records.len() - 1;
        let extra = match records.last().value {
            Some(ValueRef::BlobIndex(index)) => candidates.contains(index.file_id),
            _ => false,
        };
        if extra {
            let index = match records.last().value {
                Some(ValueRef::BlobIndex(index)) => index,
                _ => arbitrary(),
            };
            let target = BlobGcRewriteTarget { position: BlobGcRewritePosition { table_index: j, record_index: last as usize }, index };
            assert(all == rest.push(target));
        } else {
            assert(all == rest);
        }
        assert forall|r: int, index: BlobIndex|
            0 <= r < records.len() && records[r].value == Some(ValueRef::BlobIndex(index)) && candidates.contains(
                index.file_id,
            ) implies #[trigger] all.contains(
                BlobGcRewriteTarget { position: BlobGcRewritePosition { table_index: j, record_index: r as usize }, index },
            ) by {
            let target = BlobGcRewriteTarget { position: BlobGcRewritePosition { table_index: j, record_index: r as usize }, index };
            if r < last {
                assert(d[r] == records[r]);
                assert(rest.contains(target));
                let m = choose|m: int| 0 <= m < rest.len() && rest[m] == target;
                assert(all[m] == target);
            } else {
                assert(all[rest.len() as int] == target);
            }
        }
        if records.len() <= usize::MAX {
        assert forall|m: int| 0 <= m < all.len() implies {
            let t = #[trigger] all[m];
            &&& t.position.table_index == j
            &&& t.position.record_index < records.len()
            &&& records[t.position.record_index as int].value == Some(ValueRef::BlobIndex(t.index))
            &&& candidates.contains(t.index.file_id)
        } by {
            if m < rest.len() {
                assert(all[m] == rest[m]);
                assert(d[rest[m].position.record_index as int] == records[rest[m].position.record_index as int]);
            }
        }
        }
    }
}

fn contains_id(ids: &[u64], id: u64) -> (r: bool)
    ensures
        r == ids@.contains(id),
{
    let mut i: usize = 0;
    while i < ids.len()
        invariant
            i <= ids@.len(),
            forall|k: int| 0 <= k < i ==> ids@[k] != id,
        decreases ids@.len() - i,
    {
        if ids[i] == id {
            return true;
        }
        i = i + 1;
    }
    false
}

fn table_refers_to_candidate(t: &BlobGcTableInput, candidates: &[u64]) -> (r: bool)
    ensures
        r == refers_to_candidate(*t, candidates@),
{
    let mut k: usize = 0;
    while k < t.blob_file_ids.len()
        invariant
            k <= t.blob_file_ids@.len(),
            forall|m: int| 0 <= m < k ==> !candidates@.contains(#[trigger] t.blob_file_ids@[m]),
        decreases t.blob_file_ids@.len() - k,
    {
        if contains_id(candidates, t.blob_file_ids[k]) {
            return true;
        }
        k = k + 1;
    }
    false
}

fn collect_record_targets(records: &[TablePointRecord], j: usize, candidates: &[u64], targets: &mut Vec<BlobGcRewriteTarget>)
    ensures
        final(targets)@ == old(targets)@ + record_targets(records@, j, candidates@),
{
    let ghost start = targets@;
    let mut r: usize = 0;
    while r < records.len()
        invariant
            r <= records@.len(),
            targets@ == start + record_targets(records@.take(r as int), j, candidates@),
        decreases records@.len() - r,
    {
        proof {
            assert(records@.take(r + 1).drop_last() =~= records@.take(r as int));
            assert(records@.take(r + 1).last() == records@[r as int]);
        }
        match &records[r].value {
            Some(ValueRef::BlobIndex(index)) => {
                if contains_id(candidates, index.file_id) {
                    targets.push(
                        BlobGcRewriteTarget {
                            position: BlobGcRewritePosition { table_index: j, record_index: r },
                            index: *index,
                        },
                    );
                    proof {
                        assert(targets@ =~= start + record_targets(records@.take(r + 1), j, candidates@));
                    }
                }
            },
            _ => {},
        }
        r = r + 1;
    }
    proof {
        assert(records@.take(r as int) =~= records@);
    }
}

/// The records to rewrite of the first `n` chosen tables hold the records
/// to rewrite of each of them, and only those.
proof fn lemma_chosen_targets_parts(tables: Seq<BlobGcTableInput>, chosen: Seq<usize>, candidates: Seq<u64>, n: int)
    requires
        0 <= n <= chosen.len(),
    ensures
        forall|j: int, x: BlobGcRewriteTarget|
            0 <= j < n && #[trigger] record_targets(tables[chosen[j] as int].point_records@, j as usize, candidates).contains(x)
                ==> chosen_targets(tables, chosen, candidates, n).contains(x),
        forall|m: int|
            0 <= m < chosen_targets(tables, chosen, candidates, n).len() ==> exists|j: int|
                0 <= j < n && record_targets(tables[chosen[j] as int].point_records@, j as usize, candidates).contains(
                    #[trigger] chosen_targets(tables, chosen, candidates, n)[m],
                ),
    decreases n,
{
    if n > 0 {
        lemma_chosen_targets_parts(tables, chosen, candidates, n - 1);
        let before = chosen_targets(tables, chosen, candidates, n - 1);
        let part = record_targets(tables[chosen[n - 1] as int].point_records@, (n - 1) as usize, candidates);
        let all = chosen_targets(tables, chosen, candidates, n);
        assert(all == before + part);
        assert forall|j: int, x: BlobGcRewriteTarget|
            0 <= j < n && #[trigger] record_targets(tables[chosen[j] as int].point_records@, j as usize, candidates).contains(x)
                implies all.contains(x) by {
            if j < n - 1 {
                let m = choose|m: int| 0 <= m < before.len() && before[m] == x;
                assert(all[m] == x);
            } else {
                let m = choose|m: int| 0 <= m < part.len() && part[m] == x;
                assert(all[before.len() + m] == x);
            }
        }
        assert forall|m: int| 0 <= m < all.len() implies exists|j: int|
            0 <= j < n && record_targets(tables[chosen[j] as int].point_records@, j as usize, candidates).contains(
                #[trigger] all[m],
            ) by {
            if m < before.len() {
                assert(all[m] == before[m]);
                let j = choose|j: int|
                    0 <= j < n - 1 && record_targets(tables[chosen[j] as int].point_records@, j as usize, candidates).contains(
                        #[trigger] before[m],
                    );
            } else {
                assert(all[m] == part[m - before.len()]);
                assert(part.contains(all[m]));
            }
        }
    }
}

proof fn lemma_plan_laws(tables: Seq<BlobGcTableInput>, candidates: Seq<u64>)
    requires
        tables.len() <= usize::MAX,
        forall|t: int| 0 <= t < tables.len() ==> (#[trigger] tables[t]).point_records@.len() <= usize::MAX,
    ensures
        ({
            let chosen = chosen_tables(tables, candidates);
            let targets = chosen_targets(tables, chosen, candidates, chosen.len() as int);
            &&& forall|t: usize|
                t < tables.len() ==> (#[trigger] chosen.contains(t) <==> exists|k: int|
                    #[trigger] has_candidate_file(tables[t as int], candidates, k))
            &&& forall|j: int, rec: int, index: BlobIndex|
                0 <= j < chosen.len() && 0 <= rec < tables[chosen[j] as int].point_records@.len()
                    && tables[chosen[j] as int].point_records@[rec].value == Some(ValueRef::BlobIndex(index))
                    && candidates.contains(index.file_id) ==> #[trigger] targets.contains(
                    BlobGcRewriteTarget {
                        position: BlobGcRewritePosition { table_index: j as usize, record_index: rec as usize },
                        index,
                    },
                )
            &&& forall|m: int|
                0 <= m < targets.len() ==> {
                    let x = #[trigger] targets[m];
                    let t = chosen[x.position.table_index as int] as int;
                    &&& x.position.table_index < chosen.len()
                    &&& x.position.record_index < tables[t].point_records@.len()
                    &&& tables[t].point_records@[x.position.record_index as int].value == Some(ValueRef::BlobIndex(x.index))
                    &&& candidates.contains(x.index.file_id)
                }
            &&& targets.len() == 0 ==> forall|t: int, k: int, rec: int|
                #![trigger has_candidate_file(tables[t], candidates, k), tables[t].point_records@[rec]]
                0 <= t < tables.len() && has_candidate_file(tables[t], candidates, k) && 0 <= rec < tables[t].point_records@.len()
                    ==> !(tables[t].point_records@[rec].value matches Some(ValueRef::BlobIndex(index)) && candidates.contains(index.file_id))
        }),
{
    let chosen = chosen_tables(tables, candidates);
    let targets = chosen_targets(tables, chosen, candidates, chosen.len() as int);
    lemma_chosen_tables_exact(tables, candidates);
    lemma_chosen_targets_parts(tables, chosen, candidates, chosen.len() as int);
    assert forall|j: int, rec: int, index: BlobIndex|
        0 <= j < chosen.len() && 0 <= rec < tables[chosen[j] as int].point_records@.len()
            && tables[chosen[j] as int].point_records@[rec].value == Some(ValueRef::BlobIndex(index))
            && candidates.contains(index.file_id) implies #[trigger] targets.contains(
            BlobGcRewriteTarget {
                position: BlobGcRewritePosition { table_index: j as usize, record_index: rec as usize },
                index,
            },
        ) by {
        let recs = tables[chosen[j] as int].point_records@;
        lemma_record_targets_exact(recs, j as usize, candidates);
        let target = BlobGcRewriteTarget {
            position: BlobGcRewritePosition { table_index: j as usize, record_index: rec as usize },
            index,
        };
        assert(recs[rec].value == Some(ValueRef::BlobIndex(index)));
        assert(record_targets(recs, j as usize, candidates).contains(target));
        assert(chosen_targets(tables, chosen, candidates, chosen.len() as int).contains(target));
    }
    assert forall|m: int| 0 <= m < targets.len() implies {
        let x = #[trigger] targets[m];
        let t = chosen[x.position.table_index as int] as int;
        &&& x.position.table_index < chosen.len()
        &&& x.position.record_index < tables[t].point_records@.len()
        &&& tables[t].point_records@[x.position.record_index as int].value == Some(ValueRef::BlobIndex(x.index))
        &&& candidates.contains(x.index.file_id)
    } by {
        let x = targets[m];
        assert(exists|j: int|
            0 <= j < chosen.len() && record_targets(tables[chosen[j] as int].point_records@, j as usize, candidates).contains(
                #[trigger] targets[m],
            ));
        let j = choose|j: int|
            0 <= j < chosen.len() && record_targets(tables[chosen[j] as int].point_records@, j as usize, candidates).contains(
                #[trigger] targets[m],
            );
        let recs = tables[chosen[j] as int].point_records@;
        assert(chosen[j] < tables.len());
        assert(recs.len() <= usize::MAX);
        lemma_record_targets_exact(recs, j as usize, candidates);
        let part = record_targets(recs, j as usize, candidates);
        let q = choose|q: int| 0 <= q < part.len() && part[q] == x;
        assert(part[q] == x);
        assert(x.position.table_index == j as usize);
    }
    if targets.len() == 0 {
        assert forall|t: int, k: int, rec: int|
            #![trigger has_candidate_file(tables[t], candidates, k), tables[t].point_records@[rec]]
            0 <= t < tables.len() && has_candidate_file(tables[t], candidates, k) && 0 <= rec < tables[t].point_records@.len()
                implies !(tables[t].point_records@[rec].value matches Some(ValueRef::BlobIndex(index)) && candidates.contains(index.file_id)) by {
            if tables[t].point_records@[rec].value matches Some(ValueRef::BlobIndex(index)) && candidates.contains(index.file_id) {
                let index = match tables[t].point_records@[rec].value {
                    Some(ValueRef::BlobIndex(index)) => index,
                    _ => arbitrary(),
                };
                assert(chosen.contains(t as usize));
                let j = choose|j: int| 0 <= j < chosen.len() && chosen[j] == t as usize;
                lemma_record_targets_exact(tables[t].point_records@, j as usize, candidates);
                assert(targets.contains(
                    BlobGcRewriteTarget {
                        position: BlobGcRewritePosition { table_index: j as usize, record_index: rec as usize },
                        index,
                    },
                ));
            }
        }
    }
}

/// Chooses what blob garbage collection rewrites: every table that refers
/// to a candidate blob file, in order, each with an output table id from
/// `next_id` on, and every record of a chosen table whose value is a blob
/// index into a candidate file. The new blob file takes `next_id` as its
/// own id. Fails with `Corruption` when the table id counter would pass
/// `u64::MAX`; gives `None` when no record is to be rewritten.
pub fn plan_blob_gc_rewrite(tables: &[BlobGcTableInput], candidate_file_ids: &[u64], next_id: TableId) -> (r: Result<Option<BlobGcRewriteSelection>>)
    ensures
        ({
            let chosen = chosen_tables(tables@, candidate_file_ids@);
            let targets = chosen_targets(tables@, chosen, candidate_file_ids@, chosen.len() as int);
            match r {
                Err(e) => next_id.0 + chosen.len() > u64::MAX && e.kind() == ErrorKind::Corruption
                    && e.message_view() == "table id counter overflow"@,
                Ok(None) => next_id.0 + chosen.len() <= u64::MAX && targets.len() == 0,
                Ok(Some(s)) => {
                    &&& next_id.0 + chosen.len() <= u64::MAX
                    &&& targets.len() > 0
                    &&& s.new_blob_file_id == next_id.0
                    &&& s.chosen_tables@ == chosen
                    &&& s.output_table_ids@.len() == chosen.len()
                    &&& forall|k: int| 0 <= k < chosen.len() ==> (#[trigger] s.output_table_ids@[k]).0 == next_id.0 + k
                    &&& s.targets@ == targets
                },
            }
        }),
        r matches Ok(Some(s)) ==> forall|t: usize|
            t < tables@.len() ==> (#[trigger] s.chosen_tables@.contains(t) <==> exists|k: int|
                #[trigger] has_candidate_file(tables@[t as int], candidate_file_ids@, k)),
        r matches Ok(Some(s)) ==> forall|j: int, rec: int, index: BlobIndex|
            0 <= j < s.chosen_tables@.len() && 0 <= rec < tables@[s.chosen_tables@[j] as int].point_records@.len()
                && tables@[s.chosen_tables@[j] as int].point_records@[rec].value == Some(ValueRef::BlobIndex(index))
                && candidate_file_ids@.contains(index.file_id) ==> #[trigger] s.targets@.contains(
                BlobGcRewriteTarget {
                    position: BlobGcRewritePosition { table_index: j as usize, record_index: rec as usize },
                    index,
                },
            ),
        r matches Ok(Some(s)) ==> forall|m: int|
            0 <= m < s.targets@.len() ==> {
                let x = #[trigger] s.targets@[m];
                let t = s.chosen_tables@[x.position.table_index as int] as int;
                &&& x.position.table_index < s.chosen_tables@.len()
                &&& x.position.record_index < tables@[t].point_records@.len()
                &&& tables@[t].point_records@[x.position.record_index as int].value == Some(ValueRef::BlobIndex(x.index))
                &&& candidate_file_ids@.contains(x.index.file_id)
            },
        r matches Ok(None) ==> forall|t: int, k: int, rec: int|
            #![trigger has_candidate_file(tables@[t], candidate_file_ids@, k), tables@[t].point_records@[rec]]
            0 <= t < tables@.len() && has_candidate_file(tables@[t], candidate_file_ids@, k) && 0 <= rec < tables@[t].point_records@.len()
                ==> !(tables@[t].point_records@[rec].value matches Some(ValueRef::BlobIndex(index)) && candidate_file_ids@.contains(index.file_id)),
{
    let ghost cands = candidate_file_ids@;
    let mut chosen: Vec<usize> = Vec::new();
    let mut ids: Vec<TableId> = Vec::new();
    let mut targets: Vec<BlobGcRewriteTarget> = Vec::new();
    let mut next = next_id;
    let mut i: usize = 0;
    while i < tables.len()
        invariant
            i <= tables@.len(),
            chosen@ == chosen_tables(tables@.take(i as int), cands),
            forall|t: int| 0 <= t < i ==> (#[trigger] tables@[t]).point_records@.len() <= usize::MAX,
            cands == candidate_file_ids@,
            ids@.len() == chosen@.len(),
            next.0 == next_id.0 + chosen@.len(),
            forall|k: int| 0 <= k < ids@.len() ==> (#[trigger] ids@[k]).0 == next_id.0 + k,
            forall|k: int| 0 <= k < chosen@.len() ==> chosen@[k] < i,
            targets@ == chosen_targets(tables@, chosen@, cands, chosen@.len() as int),
        decreases tables@.len() - i,
    {
        proof {
            assert(tables@.take(i + 1).drop_last() =~= tables@.take(i as int));
            assert(tables@.take(i + 1).last() == tables@[i as int]);
        }
        let _record_count = tables[i].point_records.len();
        if table_refers_to_candidate(&tables[i], candidate_file_ids) {
            let id = next;
            next = match next.next() {
                Some(n) => n,
                None => {
                    proof {
                        lemma_chosen_grow(tables@, cands, i + 1, tables@.len() as int);
                        assert(tables@.take(tables@.len() as int) =~= tables@);
                    }
                    return Err(Error::corruption("table id counter overflow"));
                },
            };
            let ghost chosen_before = chosen@;
            let ghost targets_before = targets@;
            chosen.push(i);
            ids.push(id);
            proof {
                assert forall|k: int| 0 <= k < chosen_before.len() implies chosen@[k] == chosen_before[k] by {}
                lemma_targets_prefix(tables@, chosen_before, chosen@, cands, chosen_before.len() as int);
            }
            collect_record_targets(tables[i].point_records.as_slice(), chosen.len() - 1, candidate_file_ids, &mut targets);
            proof {
                assert(chosen@[chosen@.len() - 1] == i);
            }
        }
        i = i + 1;
    }
    proof {
        assert(tables@.take(i as int) =~= tables@);
        lemma_plan_laws(tables@, candidate_file_ids@);
    }
    if targets.len() == 0 {
        return Ok(None);
    }
    Ok(Some(BlobGcRewriteSelection { new_blob_file_id: next_id.get(), chosen_tables: chosen, output_table_ids: ids, targets }))
}

proof fn lemma_chosen_grow(tables: Seq<BlobGcTableInput>, candidates: Seq<u64>, a: int, b: int)
    requires
        0 <= a <= b <= tables.len(),
    ensures
        chosen_tables(tables.take(a), candidates).len() <= chosen_tables(tables.take(b), candidates).len(),
    decreases b - a,
{
    if a < b {
        lemma_chosen_grow(tables, candidates, a, b - 1);
        assert(tables.take(b).drop_last() =~= tables.take(b - 1));
    }
}

proof fn lemma_targets_prefix(tables: Seq<BlobGcTableInput>, c1: Seq<usize>, c2: Seq<usize>, candidates: Seq<u64>, n: int)
    requires
        0 <= n <= c1.len(),
        n <= c2.len(),
        forall|k: int| 0 <= k < n ==> c1[k] == c2[k],
    ensures
        chosen_targets(tables, c1, candidates, n) == chosen_targets(tables, c2, candidates, n),
    decreases n,
{
    if n > 0 {
        lemma_targets_prefix(tables, c1, c2, candidates, n - 1);
    }
}

/// A value that blob garbage collection moves into the new blob file, with
/// the record it belongs to.
pub struct BlobGcRewriteRecord {
    pub internal_key: InternalKey,
    pub value: Vec<u8>,
    pub compression: CodecId,
    pub table_index: usize,
    pub record_index: usize,
}

pub open spec fn records_sorted(s: Seq<BlobGcRewriteRecord>) -> bool {
    forall|a: int, b: int| 0 <= a < b < s.len() ==> key_le((#[trigger] s[a]).internal_key@, (#[trigger] s[b]).internal_key@)
}

/// Orders the records to rewrite by internal key, as a blob file needs
/// them. The result holds the same records.
pub fn sort_rewrite_records(records: Vec<BlobGcRewriteRecord>) -> (r: Vec<BlobGcRewriteRecord>)
    ensures
        records_sorted(r@),
        r@.to_multiset() == records@.to_multiset(),
{
    broadcast use vstd::seq_lib::group_to_multiset_ensures;

    let mut input = records;
    let mut out: Vec<BlobGcRewriteRecord> = Vec::new();
    while input.len() > 0
        invariant
            out@.to_multiset().add(input@.to_multiset()) == records@.to_multiset(),
            records_sorted(out@),
            forall|i: int, j: int|
                0 <= i < out@.len() && 0 <= j < input@.len() ==> key_le(
                    out@[i].internal_key@,
                    input@[j].internal_key@,
                ),
        decreases input@.len(),
    {
        let mut best: usize = 0;
        let mut i: usize = 1;
        proof {
            lemma_key_order_antisym(input@[0].internal_key@, input@[0].internal_key@);
        }
        while i < input.len()
            invariant
                1 <= i <= input@.len(),
                best < input@.len(),
                forall|j: int| 0 <= j < i ==> key_le(input@[best as int].internal_key@, input@[j].internal_key@),
            decreases input@.len() - i,
        {
            proof {
                lemma_key_order_antisym(input@[best as int].internal_key@, input@[i as int].internal_key@);
            }
            if internal_key_less(&input[i].internal_key, &input[best].internal_key) {
                proof {
                    lemma_key_order_antisym(input@[i as int].internal_key@, input@[i as int].internal_key@);
                    assert forall|j: int| 0 <= j <= i implies key_le(
                        input@[i as int].internal_key@,
                        input@[j].internal_key@,
                    ) by {
                        if j < i {
                            lemma_key_order_trans(
                                input@[i as int].internal_key@,
                                input@[best as int].internal_key@,
                                input@[j].internal_key@,
                            );
                        }
                    }
                }
                best = i;
            }
            i = i + 1;
        }
        let ghost before = input@;
        let ghost out_before = out@;
        let item = input.remove(best);
        proof {
            before.to_multiset_ensures();
            assert(before.remove(best as int).to_multiset() == before.to_multiset().remove(before[best as int]));
            assert forall|j: int| 0 <= j < input@.len() implies key_le(item.internal_key@, input@[j].internal_key@) by {
                if j < best {
                    assert(input@[j] == before[j]);
                } else {
                    assert(input@[j] == before[j + 1]);
                }
            }
        }
        out.push(item);
        proof {
            out_before.to_multiset_ensures();
            assert(out@.to_multiset() == out_before.to_multiset().insert(item));
            assert(out@.to_multiset().add(input@.to_multiset()) =~= records@.to_multiset());
            assert forall|a: int, b: int| 0 <= a < b < out@.len() implies key_le(
                (#[trigger] out@[a]).internal_key@,
                (#[trigger] out@[b]).internal_key@,
            ) by {
                if b == out@.len() - 1 {
                    assert(key_le(out_before[a].internal_key@, before[best as int].internal_key@));
                } else {
                    assert(out_before[a] == out@[a] && out_before[b] == out@[b]);
                }
            }
            assert forall|a: int, j: int| 0 <= a < out@.len() && 0 <= j < input@.len() implies key_le(
                out@[a].internal_key@,
                input@[j].internal_key@,
            ) by {
                if a < out_before.len() {
                    if j < best {
                        assert(input@[j] == before[j]);
                    } else {
                        assert(input@[j] == before[j + 1]);
                    }
                }
            }
        }
    }
    proof {
        assert(input@.to_multiset() =~= vstd::multiset::Multiset::empty());
        assert(out@.to_multiset().add(vstd::multiset::Multiset::empty()) =~= out@.to_multiset());
    }
    out
}

} // verus!
