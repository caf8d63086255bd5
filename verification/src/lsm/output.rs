//! How the records and range tombstones that a compaction keeps are laid out
//! in output tables.

use vstd::prelude::*;
use crate::blob::{TableEntry, ValueRefView};
use crate::bytes::{bytes_lt, compare_bytes, to_vec, Order};
use crate::internal_key::InternalKeyView;
use crate::lsm::compact::{
    compact_point_record_group, compacts_to, covers_remaining_put, entry_view, entry_views,
    kept_version, kept_versions, range_tombstone_covers_remaining_put, redundant_delete,
    without_redundant_deletes, EntryView,
};
use crate::types::Sequence;
use crate::range_tombstone::{ends_before_start, ranges_overlap, range_from_inclusive_span, range_intersection, spec_max_start, spec_min_end};
use crate::stats::sat_add;
use crate::table::TableRangeTombstone;
use crate::table_format::{tombstone_view, tombstone_views, TombstoneView};
use crate::types::{bound_view, clone_range, Bound, KeyRange, SpecBound};
use crate::validation::{spec_usize_to_u64, usize_to_u64_saturating};
use vstd::seq_lib::{commutative_foldl, lemma_fold_left_permutation};

verus! {

// ---------------------------------------------------------------- sizes

/// A length as a `u64`, saturating at `u64::MAX`.
pub open spec fn len_u64(n: nat) -> u64 {
    if n > u64::MAX {
        u64::MAX
    } else {
        n as u64
    }
}

/// Estimated bytes of a range bound: the length of its key.
pub open spec fn spec_bound_bytes(bound: SpecBound) -> u64 {
    match bound {
        SpecBound::Included(key) => len_u64(key.len()),
        SpecBound::Excluded(key) => len_u64(key.len()),
        SpecBound::Unbounded => 0,
    }
}

/// Estimated bytes of a key range: the lengths of its two bound keys.
pub open spec fn spec_key_range_bytes(start: SpecBound, end: SpecBound) -> u64 {
    sat_add(spec_bound_bytes(start), spec_bound_bytes(end))
}

/// Estimated bytes of a range tombstone: its range, an 8-byte sequence and a
/// 4-byte batch index.
pub open spec fn spec_tombstone_bytes(t: TombstoneView) -> u64 {
    sat_add(sat_add(spec_key_range_bytes(t.start, t.end), 8), 4)
}

/// Length of a value as a table record refers to it.
pub open spec fn value_view_len(value: ValueRefView) -> u64 {
    match value {
        ValueRefView::Inline(bytes) => bytes.len() as u64,
        ValueRefView::BlobIndex(index) => index.value_len,
        ValueRefView::Blob { len, .. } => len,
    }
}

/// Estimated bytes of a point record: its user key, its value and 32 bytes
/// of overhead.
pub open spec fn spec_record_bytes(e: EntryView) -> u64 {
    let value_len: u64 = match e.1 {
        Some(value) => value_view_len(value),
        None => 0,
    };
    sat_add(sat_add(len_u64(e.0.user_key.len()), value_len), 32)
}

pub fn bound_bytes(bound: &Bound<Vec<u8>>) -> (r: u64)
    ensures
        r == spec_bound_bytes(bound_view(*bound)),
{
    match bound {
        Bound::Included(bytes) => usize_to_u64_saturating(bytes.len()),
        Bound::Excluded(bytes) => usize_to_u64_saturating(bytes.len()),
        Bound::Unbounded => 0,
    }
}

pub fn key_range_bytes(range: &KeyRange) -> (r: u64)
    ensures
        r == spec_key_range_bytes(range.start_view(), range.end_view()),
{
    bound_bytes(&range.start).saturating_add(bound_bytes(&range.end))
}

pub fn range_tombstone_bytes(tombstone: &TableRangeTombstone) -> (r: u64)
    ensures
        r == spec_tombstone_bytes(tombstone_view(*tombstone)),
{
    key_range_bytes(&tombstone.range).saturating_add(8).saturating_add(4)
}

pub fn compaction_record_bytes(record: &TableEntry) -> (r: u64)
    ensures
        r == spec_record_bytes(entry_view(*record)),
{
    let value_len: u64 = match &record.1 {
        Some(value) => value.len(),
        None => 0,
    };
    usize_to_u64_saturating(record.0.user_key().len()).saturating_add(value_len).saturating_add(32)
}

/// The range has no bound on either side.
pub fn range_is_all(range: &KeyRange) -> (r: bool)
    ensures
        r == (range.start is Unbounded && range.end is Unbounded),
{
    matches!(range.start, Bound::Unbounded) && matches!(range.end, Bound::Unbounded)
}

// ---------------------------------------------------------------- spans

/// The bounds of a run of records: its first and its last user key, both
/// included.
pub open spec fn records_span(records: Seq<EntryView>) -> (SpecBound, SpecBound) {
    (SpecBound::Included(records[0].0.user_key), SpecBound::Included(records.last().0.user_key))
}

/// A tombstone reaches a span when neither ends before the other starts.
pub open spec fn reaches_span(t: TombstoneView, span: (SpecBound, SpecBound)) -> bool {
    !ends_before_start(t.end, span.0) && !ends_before_start(span.1, t.start)
}

/// The tombstone as an output table over `span` holds it: cut to the span in
/// a compaction of the whole keyspace, whole otherwise.
pub open spec fn clip_tombstone(t: TombstoneView, span: (SpecBound, SpecBound), full: bool) -> TombstoneView {
    if full {
        TombstoneView { start: spec_max_start(t.start, span.0), end: spec_min_end(t.end, span.1), ..t }
    } else {
        t
    }
}

/// The range of a run of records, or `None` for an empty run.
pub fn chunk_range(point_records: &[TableEntry]) -> (r: Option<KeyRange>)
    ensures
        r is None <==> point_records@.len() == 0,
        r matches Some(range) ==> (range.start_view(), range.end_view()) == records_span(
            entry_views(point_records@),
        ),
{
    if point_records.len() == 0 {
        return None;
    }
    let last = point_records.len() - 1;
    let range = range_from_inclusive_span(point_records[0].0.user_key(), point_records[last].0.user_key());
    Some(range)
}

/// A copy with the same view.
pub fn duplicate_tombstone(tombstone: &TableRangeTombstone) -> (r: TableRangeTombstone)
    ensures
        tombstone_view(r) == tombstone_view(*tombstone),
{
    TableRangeTombstone {
        range: clone_range(&tombstone.range),
        sequence: tombstone.sequence,
        batch_index: tombstone.batch_index,
    }
}

/// The tombstone that an output table over `span` holds, if it reaches the
/// span.
pub fn tombstone_for_output_span(tombstone: &TableRangeTombstone, span: &KeyRange, full_keyspace_compaction: bool) -> (r: Option<TableRangeTombstone>)
    ensures
        r is Some <==> reaches_span(tombstone_view(*tombstone), (span.start_view(), span.end_view())),
        r matches Some(t) ==> tombstone_view(t) == clip_tombstone(
            tombstone_view(*tombstone),
            (span.start_view(), span.end_view()),
            full_keyspace_compaction,
        ),
{
    if full_keyspace_compaction {
        match range_intersection(&tombstone.range, span) {
            Some(range) => Some(TableRangeTombstone { range, sequence: tombstone.sequence, batch_index: tombstone.batch_index }),
            None => None,
        }
    } else if ranges_overlap(&tombstone.range, span) {
        Some(duplicate_tombstone(tombstone))
    } else {
        None
    }
}

// ---------------------------------------------------------------- payloads

/// Records gathered for one output table, with their estimated size.
pub struct CompactionChunk {
    pub point_records: Vec<TableEntry>,
    pub estimated_bytes: u64,
}

/// What one output table of a compaction holds.
pub struct CompactionTablePayload {
    pub point_records: Vec<TableEntry>,
    pub range_tombstones: Vec<TableRangeTombstone>,
}

/// The mathematical value of a [`CompactionTablePayload`].
pub struct PayloadView {
    pub point_records: Seq<EntryView>,
    pub range_tombstones: Seq<TombstoneView>,
}

pub open spec fn payload_view(p: CompactionTablePayload) -> PayloadView {
    PayloadView {
        point_records: entry_views(p.point_records@),
        range_tombstones: tombstone_views(p.range_tombstones@),
    }
}

pub open spec fn payload_views(ps: Seq<CompactionTablePayload>) -> Seq<PayloadView> {
    ps.map_values(|p: CompactionTablePayload| payload_view(p))
}

pub open spec fn chunk_views(chunks: Seq<CompactionChunk>) -> Seq<Seq<EntryView>> {
    chunks.map_values(|c: CompactionChunk| entry_views(c.point_records@))
}

/// The tombstones an output table over `span` holds, in order.
pub open spec fn span_tombstones(ts: Seq<TombstoneView>, span: (SpecBound, SpecBound), full: bool) -> Seq<TombstoneView>
    decreases ts.len(),
{
    if ts.len() == 0 {
        Seq::empty()
    } else {
        let rest = span_tombstones(ts.drop_last(), span, full);
        if reaches_span(ts.last(), span) {
            rest.push(clip_tombstone(ts.last(), span, full))
        } else {
            rest
        }
    }
}

/// One payload per non-empty chunk, with the tombstones that reach it.
pub open spec fn chunk_payloads(chunks: Seq<Seq<EntryView>>, ts: Seq<TombstoneView>, full: bool) -> Seq<PayloadView>
    decreases chunks.len(),
{
    if chunks.len() == 0 {
        Seq::empty()
    } else {
        let rest = chunk_payloads(chunks.drop_last(), ts, full);
        let chunk = chunks.last();
        if chunk.len() > 0 {
            rest.push(
                PayloadView {
                    point_records: chunk,
                    range_tombstones: span_tombstones(ts, records_span(chunk), full),
                },
            )
        } else {
            rest
        }
    }
}

/// Some non-empty chunk holds the tombstone.
pub open spec fn assigned(t: TombstoneView, chunks: Seq<Seq<EntryView>>) -> bool {
    exists|i: int| 0 <= i < chunks.len() && (#[trigger] chunks[i]).len() > 0 && reaches_span(t, records_span(chunks[i]))
}

/// The tombstones that no non-empty chunk holds, in order.
pub open spec fn unassigned(ts: Seq<TombstoneView>, chunks: Seq<Seq<EntryView>>) -> Seq<TombstoneView>
    decreases ts.len(),
{
    if ts.len() == 0 {
        Seq::empty()
    } else {
        let rest = unassigned(ts.drop_last(), chunks);
        if assigned(ts.last(), chunks) {
            rest
        } else {
            rest.push(ts.last())
        }
    }
}

/// Tombstones gathered in order into groups: a tombstone opens a new group
/// when the current one is not empty and would grow past `target` bytes.
/// The closed groups, the current group and its bytes.
pub open spec fn group_state(ts: Seq<TombstoneView>, target: u64) -> (Seq<Seq<TombstoneView>>, Seq<TombstoneView>, u64)
    decreases ts.len(),
{
    if ts.len() == 0 {
        (Seq::empty(), Seq::empty(), 0)
    } else {
        let prev = group_state(ts.drop_last(), target);
        let t = ts.last();
        let bytes = spec_tombstone_bytes(t);
        if prev.1.len() > 0 && sat_add(prev.2, bytes) > target {
            (prev.0.push(prev.1), seq![t], bytes)
        } else {
            (prev.0, prev.1.push(t), sat_add(prev.2, bytes))
        }
    }
}

/// The closed groups, then the current one if it is not empty.
pub open spec fn tombstone_groups(ts: Seq<TombstoneView>, target: u64) -> Seq<Seq<TombstoneView>> {
    let state = group_state(ts, target);
    if state.1.len() > 0 {
        state.0.push(state.1)
    } else {
        state.0
    }
}

pub open spec fn tombstone_payload(group: Seq<TombstoneView>) -> PayloadView {
    PayloadView { point_records: Seq::empty(), range_tombstones: group }
}

/// The payloads of a compaction: one per non-empty chunk, then the
/// tombstones that no chunk holds, in groups of about `target` bytes.
pub open spec fn payloads_spec(chunks: Seq<Seq<EntryView>>, ts: Seq<TombstoneView>, full: bool, target: u64) -> Seq<PayloadView> {
    chunk_payloads(chunks, ts, full) + tombstone_groups(unassigned(ts, chunks), target).map_values(
        |g: Seq<TombstoneView>| tombstone_payload(g),
    )
}

proof fn lemma_assigned_step(t: TombstoneView, chunks: Seq<Seq<EntryView>>, i: int)
    requires
        0 <= i < chunks.len(),
    ensures
        assigned(t, chunks.take(i + 1)) <==> (assigned(t, chunks.take(i)) || (chunks[i].len() > 0
            && reaches_span(t, records_span(chunks[i])))),
{
    let next = chunks.take(i + 1);
    let prev = chunks.take(i);
    if assigned(t, next) {
        let k = choose|k: int| 0 <= k < next.len() && (#[trigger] next[k]).len() > 0 && reaches_span(t, records_span(next[k]));
        if k < i {
            assert(prev[k] == next[k]);
        }
    }
    if assigned(t, prev) {
        let k = choose|k: int| 0 <= k < prev.len() && (#[trigger] prev[k]).len() > 0 && reaches_span(t, records_span(prev[k]));
        assert(next[k] == prev[k]);
    }
    if chunks[i].len() > 0 && reaches_span(t, records_span(chunks[i])) {
        assert(next[i] == chunks[i]);
    }
}

/// Lays out the output tables of a compaction: one per non-empty chunk, with
/// each tombstone that reaches the chunk's key span (cut to it in a
/// compaction of the whole keyspace), then the tombstones that reach no chunk
/// in tables of about `target_table_bytes`.
pub fn compaction_payloads_from_chunks(chunks: Vec<CompactionChunk>, range_tombstones: &[TableRangeTombstone], full_keyspace_compaction: bool, target_table_bytes: u64) -> (r: Vec<CompactionTablePayload>)
    ensures
        payload_views(r@) == payloads_spec(
            chunk_views(chunks@),
            tombstone_views(range_tombstones@),
            full_keyspace_compaction,
            target_table_bytes,
        ),
{
    let ghost all = chunks@;
    let ghost cv = chunk_views(chunks@);
    let ghost tv = tombstone_views(range_tombstones@);
    let full = full_keyspace_compaction;
    let n = range_tombstones.len();
    let mut assigned_marks: Vec<bool> = Vec::new();
    while assigned_marks.len() < n
        invariant
            assigned_marks@.len() <= n,
            n == range_tombstones@.len(),
            forall|k: int| 0 <= k < assigned_marks@.len() ==> !(#[trigger] assigned_marks@[k]),
        decreases n - assigned_marks@.len(),
    {
        assigned_marks.push(false);
    }
    let mut payloads: Vec<CompactionTablePayload> = Vec::new();
    let mut rest = chunks;
    let ghost mut i: int = 0;
    while rest.len() > 0
        invariant
            0 <= i <= all.len(),
            rest@ == all.skip(i),
            cv == chunk_views(all),
            tv == tombstone_views(range_tombstones@),
            n == range_tombstones@.len(),
            assigned_marks@.len() == n,
            forall|k: int| 0 <= k < n ==> (#[trigger] assigned_marks@[k]) == assigned(tv[k], cv.take(i)),
            payload_views(payloads@) == chunk_payloads(cv.take(i), tv, full),
        decreases rest@.len(),
    {
        let chunk = rest.remove(0);
        proof {
            assert(chunk == all[i]);
            assert(rest@ =~= all.skip(i + 1));
            assert(cv[i] == entry_views(chunk.point_records@));
            assert(cv.take(i + 1).drop_last() =~= cv.take(i));
            assert(cv.take(i + 1).last() == cv[i]);
            assert forall|k: int| 0 <= k < n implies assigned(tv[k], cv.take(i + 1)) == (assigned(tv[k], cv.take(i)) || (cv[i].len() > 0
                && reaches_span(tv[k], records_span(cv[i])))) by {
                lemma_assigned_step(tv[k], cv, i);
            }
        }
        match chunk_range(chunk.point_records.as_slice()) {
            None => {
                proof {
                    i = i + 1;
                }
            },
            Some(span) => {
                let ghost sv = (span.start_view(), span.end_view());
                let ghost old_marks = assigned_marks@;
                let mut chunk_tombstones: Vec<TableRangeTombstone> = Vec::new();
                let mut j: usize = 0;
                while j < n
                    invariant
                        j <= n,
                        n == range_tombstones@.len(),
                        tv == tombstone_views(range_tombstones@),
                        assigned_marks@.len() == n,
                        old_marks.len() == n,
                        sv == (span.start_view(), span.end_view()),
                        forall|k: int| 0 <= k < j ==> (#[trigger] assigned_marks@[k]) == (old_marks[k] || reaches_span(tv[k], sv)),
                        forall|k: int| j <= k < n ==> (#[trigger] assigned_marks@[k]) == old_marks[k],
                        tombstone_views(chunk_tombstones@) == span_tombstones(tv.take(j as int), sv, full),
                    decreases n - j,
                {
                    proof {
                        assert(tv.take(j + 1).drop_last() =~= tv.take(j as int));
                        assert(tv.take(j + 1).last() == tv[j as int]);
                        assert(tv[j as int] == tombstone_view(range_tombstones@[j as int]));
                    }
                    match tombstone_for_output_span(&range_tombstones[j], &span, full) {
                        Some(t) => {
                            assigned_marks.set(j, true);
                            chunk_tombstones.push(t);
                            proof {
                                assert(tombstone_views(chunk_tombstones@) =~= span_tombstones(tv.take(j as int), sv, full).push(tombstone_view(t)));
                            }
                        },
                        None => {},
                    }
                    j = j + 1;
                }
                proof {
                    assert(tv.take(n as int) =~= tv);
                }
                let payload = CompactionTablePayload { point_records: chunk.point_records, range_tombstones: chunk_tombstones };
                let ghost before = payloads@;
                payloads.push(payload);
                proof {
                    assert(payload_views(payloads@) =~= payload_views(before).push(payload_view(payload)));
                    i = i + 1;
                }
            },
        }
    }
    proof {
        assert(cv.take(i) =~= cv);
    }
    let ghost chunk_part = payload_views(payloads@);
    let mut tombstone_only: Vec<TableRangeTombstone> = Vec::new();
    let mut tombstone_only_bytes: u64 = 0;
    let mut j: usize = 0;
    while j < n
        invariant
            j <= n,
            n == range_tombstones@.len(),
            tv == tombstone_views(range_tombstones@),
            assigned_marks@.len() == n,
            forall|k: int| 0 <= k < n ==> (#[trigger] assigned_marks@[k]) == assigned(tv[k], cv),
            chunk_part == chunk_payloads(cv, tv, full),
            ({
                let state = group_state(unassigned(tv.take(j as int), cv), target_table_bytes);
                &&& payload_views(payloads@) == chunk_part + state.0.map_values(|g: Seq<TombstoneView>| tombstone_payload(g))
                &&& tombstone_views(tombstone_only@) == state.1
                &&& tombstone_only_bytes == state.2
            }),
        decreases n - j,
    {
        let ghost prev_u = unassigned(tv.take(j as int), cv);
        proof {
            assert(tv.take(j + 1).drop_last() =~= tv.take(j as int));
            assert(tv.take(j + 1).last() == tv[j as int]);
            assert(tv[j as int] == tombstone_view(range_tombstones@[j as int]));
        }
        if !assigned_marks[j] {
            let tombstone_bytes = range_tombstone_bytes(&range_tombstones[j]);
            let ghost prev_state = group_state(prev_u, target_table_bytes);
            proof {
                let u = prev_u.push(tv[j as int]);
                assert(unassigned(tv.take(j + 1), cv) == u);
                assert(u.drop_last() =~= prev_u);
            }
            if !tombstone_only.is_empty() && tombstone_only_bytes.saturating_add(tombstone_bytes) > target_table_bytes {
                let group = tombstone_only;
                let ghost before = payloads@;
                payloads.push(CompactionTablePayload { point_records: Vec::new(), range_tombstones: group });
                proof {
                    let mk = |g: Seq<TombstoneView>| tombstone_payload(g);
                    assert(entry_views(Seq::<TableEntry>::empty()) =~= Seq::<EntryView>::empty());
                    assert(prev_state.0.push(prev_state.1).map_values(mk) =~= prev_state.0.map_values(mk).push(mk(prev_state.1)));
                    assert(payload_views(payloads@) =~= payload_views(before).push(tombstone_payload(prev_state.1)));
                }
                tombstone_only = Vec::new();
                tombstone_only_bytes = 0;
            }
            let copy = duplicate_tombstone(&range_tombstones[j]);
            tombstone_only.push(copy);
            tombstone_only_bytes = tombstone_only_bytes.saturating_add(tombstone_bytes);
            proof {
                assert(tombstone_views(tombstone_only@) =~= group_state(unassigned(tv.take(j + 1), cv), target_table_bytes).1);
            }
        }
        j = j + 1;
    }
    proof {
        assert(tv.take(n as int) =~= tv);
    }
    if !tombstone_only.is_empty() {
        let ghost state = group_state(unassigned(tv, cv), target_table_bytes);
        let ghost before = payloads@;
        payloads.push(CompactionTablePayload { point_records: Vec::new(), range_tombstones: tombstone_only });
        proof {
            let mk = |g: Seq<TombstoneView>| tombstone_payload(g);
            assert(entry_views(Seq::<TableEntry>::empty()) =~= Seq::<EntryView>::empty());
            assert(state.0.push(state.1).map_values(mk) =~= state.0.map_values(mk).push(mk(state.1)));
            assert(payload_views(payloads@) =~= payload_views(before).push(tombstone_payload(state.1)));
        }
    }
    payloads
}

// ---------------------------------------------------------------- chunks

/// Sum of the estimated bytes of records.
pub open spec fn records_bytes(s: Seq<EntryView>) -> int {
    s.fold_left(0int, |acc: int, e: EntryView| acc + spec_record_bytes(e))
}

/// Chunks being filled: the chunks closed so far, the records of the current
/// chunk and its estimated bytes.
pub type ChunkState = (Seq<Seq<EntryView>>, Seq<EntryView>, u64);

/// Adds the records of one user key: they go into the current chunk, unless
/// it is not empty and would grow past `target` bytes, in which case it is
/// closed and they start the next one.
pub open spec fn chunk_step(state: ChunkState, records: Seq<EntryView>, target: u64) -> ChunkState {
    let bytes = records_bytes(records) as u64;
    if state.1.len() > 0 && sat_add(state.2, bytes) > target {
        (state.0.push(state.1), records, bytes)
    } else {
        (state.0, state.1 + records, sat_add(state.2, bytes))
    }
}

pub open spec fn chunk_state_of(chunks: Seq<CompactionChunk>, current: CompactionChunk) -> ChunkState {
    (chunk_views(chunks), entry_views(current.point_records@), current.estimated_bytes)
}

proof fn lemma_records_bytes_prefix(s: Seq<EntryView>, i: int)
    requires
        0 <= i <= s.len(),
    ensures
        0 <= records_bytes(s.take(i)) <= records_bytes(s),
    decreases s.len() - i,
{
    if i < s.len() {
        lemma_records_bytes_prefix(s, i + 1);
        lemma_records_bytes_nonneg(s.take(i));
        assert(s.take(i + 1).drop_last() =~= s.take(i));
        assert(records_bytes(s.take(i + 1)) == records_bytes(s.take(i)) + spec_record_bytes(s[i]));
    } else {
        assert(s.take(i) =~= s);
        lemma_records_bytes_nonneg(s);
    }
}

proof fn lemma_records_bytes_nonneg(s: Seq<EntryView>)
    ensures
        records_bytes(s) >= 0,
    decreases s.len(),
{
    if s.len() > 0 {
        lemma_records_bytes_nonneg(s.drop_last());
    }
}

/// Adds the records of one user key to the chunks being filled.
pub fn push_compaction_records_to_chunks(chunks: &mut Vec<CompactionChunk>, current_chunk: &mut CompactionChunk, records: Vec<TableEntry>, target_table_bytes: u64)
    requires
        records_bytes(entry_views(records@)) <= u64::MAX,
    ensures
        chunk_state_of(final(chunks)@, *final(current_chunk)) == chunk_step(
            chunk_state_of(old(chunks)@, *old(current_chunk)),
            entry_views(records@),
            target_table_bytes,
        ),
{
    let ghost rv = entry_views(records@);
    let mut record_bytes: u64 = 0;
    let mut i: usize = 0;
    while i < records.len()
        invariant
            i <= records@.len(),
            rv == entry_views(records@),
            records_bytes(rv) <= u64::MAX,
            record_bytes == records_bytes(rv.take(i as int)),
        decreases records@.len() - i,
    {
        proof {
            assert(rv.take(i + 1).drop_last() =~= rv.take(i as int));
            assert(rv[i as int] == entry_view(records@[i as int]));
            lemma_records_bytes_prefix(rv, i + 1);
            lemma_records_bytes_prefix(rv, i as int);
        }
        let bytes = compaction_record_bytes(&records[i]);
        record_bytes = record_bytes + bytes;
        i = i + 1;
    }
    proof {
        assert(rv.take(i as int) =~= rv);
    }
    let ghost before = chunk_state_of(chunks@, *current_chunk);
    if current_chunk.point_records.len() > 0
        && current_chunk.estimated_bytes.saturating_add(record_bytes) > target_table_bytes {
        let mut taken: Vec<TableEntry> = Vec::new();
        std::mem::swap(&mut taken, &mut current_chunk.point_records);
        let ghost old_chunks = chunks@;
        let closed = CompactionChunk { point_records: taken, estimated_bytes: current_chunk.estimated_bytes };
        chunks.push(closed);
        current_chunk.estimated_bytes = 0;
        proof {
            assert(chunk_views(chunks@) =~= chunk_views(old_chunks).push(entry_views(closed.point_records@)));
        }
    }
    let ghost mid = current_chunk.point_records@;
    current_chunk.estimated_bytes = current_chunk.estimated_bytes.saturating_add(record_bytes);
    let mut records = records;
    current_chunk.point_records.append(&mut records);
    proof {
        assert(entry_views(current_chunk.point_records@) =~= entry_views(mid) + rv);
        if before.1.len() > 0 && sat_add(before.2, record_bytes) > target_table_bytes {
            assert(entry_views(mid) =~= Seq::<EntryView>::empty());
            assert(entry_views(current_chunk.point_records@) =~= rv);
        }
    }
}

/// The chunks after adding the compacted records of each user key in turn;
/// user keys that keep no record add nothing.
pub open spec fn chunk_fold(groups: Seq<Seq<EntryView>>, target: u64) -> ChunkState
    decreases groups.len(),
{
    if groups.len() == 0 {
        (Seq::empty(), Seq::empty(), 0)
    } else {
        let prev = chunk_fold(groups.drop_last(), target);
        if groups.last().len() == 0 {
            prev
        } else {
            chunk_step(prev, groups.last(), target)
        }
    }
}

/// The closed chunks, then the current one if it is not empty.
pub open spec fn final_chunks(groups: Seq<Seq<EntryView>>, target: u64) -> Seq<Seq<EntryView>> {
    let state = chunk_fold(groups, target);
    if state.1.len() > 0 {
        state.0.push(state.1)
    } else {
        state.0
    }
}

// ---------------------------------------------------------------- tombstone coverage

/// Some group of records holds a put that the tombstone hides.
pub open spec fn covered_by_groups(t: TableRangeTombstone, groups: Seq<Seq<EntryView>>) -> bool {
    exists|i: int| 0 <= i < groups.len() && covers_remaining_put(t, #[trigger] groups[i])
}

/// Marks each tombstone that hides a put among `records`; other marks stay.
pub fn mark_tombstones_covering_records(tombstones: &[TableRangeTombstone], tombstone_has_remaining_put: &mut Vec<bool>, records: &[TableEntry])
    requires
        old(tombstone_has_remaining_put)@.len() >= tombstones@.len(),
    ensures
        final(tombstone_has_remaining_put)@.len() == old(tombstone_has_remaining_put)@.len(),
        forall|k: int| 0 <= k < tombstones@.len() ==> #[trigger] final(tombstone_has_remaining_put)@[k]
            == (old(tombstone_has_remaining_put)@[k] || covers_remaining_put(tombstones@[k], entry_views(records@))),
        forall|k: int| tombstones@.len() <= k < old(tombstone_has_remaining_put)@.len()
            ==> #[trigger] final(tombstone_has_remaining_put)@[k] == old(tombstone_has_remaining_put)@[k],
{
    let ghost before = tombstone_has_remaining_put@;
    let mut index: usize = 0;
    while index < tombstones.len()
        invariant
            index <= tombstones@.len(),
            tombstones@.len() <= before.len(),
            tombstone_has_remaining_put@.len() == before.len(),
            forall|k: int|
                0 <= k < index ==> #[trigger] tombstone_has_remaining_put@[k] == (before[k] || covers_remaining_put(
                    tombstones@[k],
                    entry_views(records@),
                )),
            forall|k: int| index <= k < before.len() ==> #[trigger] tombstone_has_remaining_put@[k] == before[k],
        decreases tombstones@.len() - index,
    {
        if range_tombstone_covers_remaining_put(&tombstones[index], records) {
            tombstone_has_remaining_put.set(index, true);
        }
        index = index + 1;
    }
}

/// The tombstones among the first `n` whose mark is set, in order.
pub open spec fn keep_marked(ts: Seq<TableRangeTombstone>, marks: Seq<bool>, n: int) -> Seq<TableRangeTombstone>
    decreases n,
{
    if n <= 0 {
        Seq::empty()
    } else if marks[n - 1] {
        keep_marked(ts, marks, n - 1).push(ts[n - 1])
    } else {
        keep_marked(ts, marks, n - 1)
    }
}

pub open spec fn min_len(a: nat, b: nat) -> int {
    if a <= b {
        a as int
    } else {
        b as int
    }
}

/// In a compaction of the whole keyspace keeps the marked tombstones (a
/// tombstone past the end of the marks is dropped); otherwise keeps them
/// all.
pub fn cleanup_range_tombstones_by_coverage(range_tombstones: Vec<TableRangeTombstone>, tombstone_has_remaining_put: Vec<bool>, full_keyspace_compaction: bool) -> (r: Vec<TableRangeTombstone>)
    ensures
        !full_keyspace_compaction ==> r@ == range_tombstones@,
        full_keyspace_compaction ==> r@ == keep_marked(
            range_tombstones@,
            tombstone_has_remaining_put@,
            min_len(range_tombstones@.len(), tombstone_has_remaining_put@.len()),
        ),
{
    if !full_keyspace_compaction {
        return range_tombstones;
    }
    let ghost all = range_tombstones@;
    let marks = tombstone_has_remaining_put;
    let mut rest = range_tombstones;
    let mut kept: Vec<TableRangeTombstone> = Vec::new();
    let mut i: usize = 0;
    while rest.len() > 0 && i < marks.len()
        invariant
            i <= all.len(),
            i <= marks@.len(),
            rest@ == all.skip(i as int),
            kept@ == keep_marked(all, marks@, i as int),
        decreases rest@.len(),
    {
        let tombstone = rest.remove(0);
        proof {
            assert(tombstone == all[i as int]);
            assert(rest@ =~= all.skip(i + 1));
        }
        if marks[i] {
            kept.push(tombstone);
        }
        i = i + 1;
    }
    proof {
        assert(i as int == min_len(all.len(), marks@.len())) by {
            if rest@.len() == 0 {
                assert(all.skip(i as int).len() == 0);
            }
        }
    }
    kept
}

// ---------------------------------------------------------------- sources

/// The smallest of the keys that are present, taken in order.
pub open spec fn smallest_key(keys: Seq<Option<Seq<u8>>>) -> Option<Seq<u8>>
    decreases keys.len(),
{
    if keys.len() == 0 {
        None
    } else {
        let rest = smallest_key(keys.drop_last());
        match keys.last() {
            None => rest,
            Some(key) => match rest {
                None => Some(key),
                Some(selected) => if bytes_lt(key, selected) {
                    Some(key)
                } else {
                    Some(selected)
                },
            },
        }
    }
}

pub open spec fn key_views(keys: Seq<Option<Vec<u8>>>) -> Seq<Option<Seq<u8>>> {
    keys.map_values(
        |k: Option<Vec<u8>>|
            match k {
                Some(v) => Some(v@),
                None => None,
            },
    )
}

/// The next user key a compaction visits: the smallest current key of its
/// sources, `None` when every source is exhausted.
pub fn next_compaction_user_key(current_keys: &[Option<Vec<u8>>]) -> (r: Option<Vec<u8>>)
    ensures
        match (r, smallest_key(key_views(current_keys@))) {
            (None, None) => true,
            (Some(key), Some(expected)) => key@ == expected,
            _ => false,
        },
{
    let ghost kv = key_views(current_keys@);
    let mut selected: Option<Vec<u8>> = None;
    let mut i: usize = 0;
    while i < current_keys.len()
        invariant
            i <= current_keys@.len(),
            kv == key_views(current_keys@),
            match (selected, smallest_key(kv.take(i as int))) {
                (None, None) => true,
                (Some(key), Some(expected)) => key@ == expected,
                _ => false,
            },
        decreases current_keys@.len() - i,
    {
        proof {
            assert(kv.take(i + 1).drop_last() =~= kv.take(i as int));
            assert(kv.take(i + 1).last() == kv[i as int]);
        }
        match &current_keys[i] {
            None => {},
            Some(user_key) => {
                let replace = match &selected {
                    None => true,
                    Some(current) => match compare_bytes(user_key.as_slice(), current.as_slice()) {
                        Order::Less => true,
                        _ => false,
                    },
                };
                if replace {
                    selected = Some(to_vec(user_key.as_slice()));
                }
            },
        }
        i = i + 1;
    }
    proof {
        assert(kv.take(i as int) =~= kv);
    }
    selected
}

// ---------------------------------------------------------------- whole compaction

proof fn lemma_entry_bytes_fold(s: Seq<TableEntry>)
    ensures
        records_bytes(entry_views(s)) == s.fold_left(
            0int,
            |acc: int, e: TableEntry| acc + spec_record_bytes(entry_view(e)),
        ),
    decreases s.len(),
{
    if s.len() > 0 {
        lemma_entry_bytes_fold(s.drop_last());
        assert(entry_views(s).drop_last() =~= entry_views(s.drop_last()));
    }
}

proof fn lemma_kept_versions_bytes(v: Seq<EntryView>, oldest: u64, n: int)
    requires
        0 <= n <= v.len(),
    ensures
        records_bytes(kept_versions(v, oldest, n)) <= records_bytes(v.take(n)),
    decreases n,
{
    if n > 0 {
        lemma_kept_versions_bytes(v, oldest, n - 1);
        assert(v.take(n).drop_last() =~= v.take(n - 1));
        if kept_version(v, n - 1, oldest) {
            assert(kept_versions(v, oldest, n).drop_last() =~= kept_versions(v, oldest, n - 1));
        }
    }
}

proof fn lemma_without_deletes_bytes(k: Seq<EntryView>, n: int)
    requires
        0 <= n <= k.len(),
    ensures
        records_bytes(without_redundant_deletes(k, n)) <= records_bytes(k.take(n)),
    decreases n,
{
    if n > 0 {
        lemma_without_deletes_bytes(k, n - 1);
        assert(k.take(n).drop_last() =~= k.take(n - 1));
        if !redundant_delete(k, n - 1) {
            assert(without_redundant_deletes(k, n).drop_last() =~= without_redundant_deletes(k, n - 1));
        }
    }
}

/// Compaction never adds to the estimated bytes of a user key's records.
proof fn lemma_compacts_to_bytes(records: Seq<TableEntry>, out: Seq<EntryView>, oldest: u64)
    requires
        compacts_to(records, out, oldest),
    ensures
        records_bytes(out) <= records_bytes(entry_views(records)),
{
    let sorted = choose|sorted: Seq<TableEntry>|
        sorted.to_multiset() == records.to_multiset() && keys_sorted_views(sorted) && ({
            let kept = kept_versions(entry_views(sorted), oldest, sorted.len() as int);
            out == without_redundant_deletes(kept, kept.len() as int)
        });
    let f = |acc: int, e: TableEntry| acc + spec_record_bytes(entry_view(e));
    assert(commutative_foldl(f));
    lemma_fold_left_permutation(sorted, records, f, 0int);
    lemma_entry_bytes_fold(sorted);
    lemma_entry_bytes_fold(records);
    let v = entry_views(sorted);
    lemma_kept_versions_bytes(v, oldest, v.len() as int);
    assert(v.take(v.len() as int) =~= v);
    let kept = kept_versions(v, oldest, v.len() as int);
    lemma_without_deletes_bytes(kept, kept.len() as int);
    assert(kept.take(kept.len() as int) =~= kept);
}

pub open spec fn keys_sorted_views(s: Seq<TableEntry>) -> bool {
    crate::internal_key::keys_sorted(crate::lsm::compact::view_keys(entry_views(s)))
}

proof fn lemma_covered_step(t: TableRangeTombstone, groups: Seq<Seq<EntryView>>, g: Seq<EntryView>)
    ensures
        covered_by_groups(t, groups.push(g)) <==> (covered_by_groups(t, groups) || covers_remaining_put(t, g)),
{
    let next = groups.push(g);
    if covered_by_groups(t, next) {
        let i = choose|i: int| 0 <= i < next.len() && covers_remaining_put(t, #[trigger] next[i]);
        if i < groups.len() {
            assert(groups[i] == next[i]);
        }
    }
    if covered_by_groups(t, groups) {
        let i = choose|i: int| 0 <= i < groups.len() && covers_remaining_put(t, #[trigger] groups[i]);
        assert(next[i] == groups[i]);
    }
    if covers_remaining_put(t, g) {
        assert(next[groups.len() as int] == g);
    }
}

proof fn lemma_keep_marked_filter(ts: Seq<TableRangeTombstone>, marks: Seq<bool>, groups: Seq<Seq<EntryView>>, n: int)
    requires
        0 <= n <= ts.len(),
        n <= marks.len(),
        forall|k: int| 0 <= k < n ==> #[trigger] marks[k] == covered_by_groups(ts[k], groups),
    ensures
        keep_marked(ts, marks, n) == ts.take(n).filter(|t: TableRangeTombstone| covered_by_groups(t, groups)),
    decreases n,
{
    reveal(Seq::filter);
    if n > 0 {
        lemma_keep_marked_filter(ts, marks, groups, n - 1);
        assert(ts.take(n).drop_last() =~= ts.take(n - 1));
        assert(ts.take(n).last() == ts[n - 1]);
    } else {
        assert(ts.take(0) =~= Seq::<TableRangeTombstone>::empty());
    }
}

/// The bytes an output table aims at: `target_table_bytes`, at least 1.
pub open spec fn output_target(target_table_bytes: usize) -> u64 {
    let target = spec_usize_to_u64(target_table_bytes);
    if target < 1 {
        1
    } else {
        target
    }
}

/// The range tombstones a compaction keeps: in a compaction of the whole
/// keyspace, those that still hide a put of the compacted records; otherwise
/// all.
pub open spec fn kept_tombstones(ts: Seq<TableRangeTombstone>, groups: Seq<Seq<EntryView>>, full: bool) -> Seq<TableRangeTombstone> {
    if full {
        ts.filter(|t: TableRangeTombstone| covered_by_groups(t, groups))
    } else {
        ts
    }
}

/// The output tables of a compaction whose user keys compacted to `groups`.
pub open spec fn build_spec(groups: Seq<Seq<EntryView>>, ts: Seq<TableRangeTombstone>, full: bool, target: u64) -> Seq<PayloadView> {
    payloads_spec(final_chunks(groups, target), tombstone_views(kept_tombstones(ts, groups, full)), full, target)
}

/// `payloads` are the output tables of a compaction whose user keys, with
/// the records in `groups`, compacted to `compacted`.
pub open spec fn compaction_outcome(payloads: Seq<PayloadView>, compacted: Seq<Seq<EntryView>>, groups: Seq<Vec<TableEntry>>, ts: Seq<TableRangeTombstone>, range: KeyRange, oldest: u64, target_table_bytes: usize) -> bool {
    &&& compacted.len() == groups.len()
    &&& forall|i: int| 0 <= i < groups.len() ==> compacts_to(groups[i]@, #[trigger] compacted[i], oldest)
    &&& payloads == build_spec(
        compacted,
        ts,
        range.start is Unbounded && range.end is Unbounded,
        output_target(target_table_bytes),
    )
}

/// Lays out the output tables of a compaction. `groups` holds, for each user
/// key the compaction visits, in key order, the records of that key from all
/// input tables; `range_tombstones` are the input tables' range tombstones
/// that overlap `range`, sorted. Each group is compacted; the records that
/// remain fill output tables of about `target_table_bytes`, and the range
/// tombstones go with the tables whose keys they reach.
pub fn build_compaction_payloads(groups: Vec<Vec<TableEntry>>, range_tombstones: Vec<TableRangeTombstone>, range: &KeyRange, oldest_active_snapshot: Sequence, target_table_bytes: usize) -> (r: Vec<CompactionTablePayload>)
    requires
        forall|i: int| 0 <= i < groups@.len() ==> records_bytes(entry_views(#[trigger] groups@[i]@)) <= u64::MAX,
    ensures
        exists|compacted: Seq<Seq<EntryView>>|
            #[trigger] compaction_outcome(
                payload_views(r@),
                compacted,
                groups@,
                range_tombstones@,
                *range,
                oldest_active_snapshot.spec_get(),
                target_table_bytes,
            ),
{
    let configured = usize_to_u64_saturating(target_table_bytes);
    let target: u64 = if configured < 1 { 1 } else { configured };
    let n = range_tombstones.len();
    let ghost ts = range_tombstones@;
    let mut marks: Vec<bool> = Vec::new();
    while marks.len() < n
        invariant
            marks@.len() <= n,
            forall|k: int| 0 <= k < marks@.len() ==> !(#[trigger] marks@[k]),
        decreases n - marks@.len(),
    {
        marks.push(false);
    }
    proof {
        assert forall|k: int| 0 <= k < n implies #[trigger] marks@[k] == covered_by_groups(ts[k], Seq::<Seq<EntryView>>::empty()) by {}
    }
    let mut chunks: Vec<CompactionChunk> = Vec::new();
    let mut current = CompactionChunk { point_records: Vec::new(), estimated_bytes: 0 };
    proof {
        assert(chunk_views(chunks@) =~= Seq::<Seq<EntryView>>::empty());
        assert(entry_views(current.point_records@) =~= Seq::<EntryView>::empty());
    }
    let ghost all = groups@;
    let ghost mut compacted: Seq<Seq<EntryView>> = Seq::empty();
    let mut rest = groups;
    while rest.len() > 0
        invariant
            compacted.len() <= all.len(),
            rest@ == all.skip(compacted.len() as int),
            forall|i: int| 0 <= i < all.len() ==> records_bytes(entry_views(#[trigger] all[i]@)) <= u64::MAX,
            forall|i: int|
                0 <= i < compacted.len() ==> compacts_to(all[i]@, #[trigger] compacted[i], oldest_active_snapshot.spec_get()),
            ts == range_tombstones@,
            n == ts.len(),
            marks@.len() == n,
            forall|k: int| 0 <= k < n ==> #[trigger] marks@[k] == covered_by_groups(ts[k], compacted),
            chunk_state_of(chunks@, current) == chunk_fold(compacted, target),
        decreases rest@.len(),
    {
        let group = rest.remove(0);
        let ghost index = compacted.len() as int;
        proof {
            assert(group == all[index]);
            assert(rest@ =~= all.skip(index + 1));
        }
        let records = compact_point_record_group(group, oldest_active_snapshot);
        let ghost out = entry_views(records@);
        proof {
            lemma_compacts_to_bytes(all[index]@, out, oldest_active_snapshot.spec_get());
            assert forall|k: int| 0 <= k < n implies covered_by_groups(ts[k], compacted.push(out)) == (covered_by_groups(ts[k], compacted) || covers_remaining_put(ts[k], out)) by {
                lemma_covered_step(ts[k], compacted, out);
            }
            assert(compacted.push(out).drop_last() =~= compacted);
        }
        if records.len() > 0 {
            mark_tombstones_covering_records(range_tombstones.as_slice(), &mut marks, records.as_slice());
            push_compaction_records_to_chunks(&mut chunks, &mut current, records, target);
        }
        proof {
            if out.len() == 0 {
                assert forall|k: int| 0 <= k < n implies !covers_remaining_put(ts[k], out) by {}
            }
            compacted = compacted.push(out);
        }
    }
    proof {
        assert(compacted.len() == all.len()) by {
            assert(all.skip(compacted.len() as int).len() == 0);
        }
    }
    let ghost folded = chunk_fold(compacted, target);
    if current.point_records.len() > 0 {
        let ghost before = chunks@;
        chunks.push(current);
        proof {
            assert(chunk_views(chunks@) =~= chunk_views(before).push(folded.1));
        }
    }
    let full = range_is_all(range);
    let kept = cleanup_range_tombstones_by_coverage(range_tombstones, marks, full);
    proof {
        if full {
            lemma_keep_marked_filter(ts, marks@, compacted, n as int);
            assert(ts.take(n as int) =~= ts);
        }
    }
    let r = compaction_payloads_from_chunks(chunks, kept.as_slice(), full, target);
    proof {
        assert(compaction_outcome(payload_views(r@), compacted, all, ts, *range, oldest_active_snapshot.spec_get(), target_table_bytes));
    }
    r
}

// ---------------------------------------------------------------- every record lands once

/// The sequences one after the other.
pub open spec fn concat<A>(parts: Seq<Seq<A>>) -> Seq<A>
    decreases parts.len(),
{
    if parts.len() == 0 {
        Seq::empty()
    } else {
        concat(parts.drop_last()) + parts.last()
    }
}

pub open spec fn payload_records(payloads: Seq<PayloadView>) -> Seq<Seq<EntryView>> {
    payloads.map_values(|p: PayloadView| p.point_records)
}

proof fn lemma_concat_append<A>(a: Seq<Seq<A>>, b: Seq<Seq<A>>)
    ensures
        concat(a + b) == concat(a) + concat(b),
    decreases b.len(),
{
    if b.len() == 0 {
        assert(a + b =~= a);
        assert(concat(a) + concat(b) =~= concat(a));
    } else {
        lemma_concat_append(a, b.drop_last());
        assert((a + b).drop_last() =~= a + b.drop_last());
        assert(concat(a) + concat(b.drop_last()) + b.last() =~= concat(a) + (concat(b.drop_last()) + b.last()));
    }
}

proof fn lemma_chunk_payload_records(chunks: Seq<Seq<EntryView>>, ts: Seq<TombstoneView>, full: bool)
    ensures
        concat(payload_records(chunk_payloads(chunks, ts, full))) == concat(chunks),
    decreases chunks.len(),
{
    if chunks.len() > 0 {
        lemma_chunk_payload_records(chunks.drop_last(), ts, full);
        let rest = chunk_payloads(chunks.drop_last(), ts, full);
        if chunks.last().len() > 0 {
            let p = PayloadView {
                point_records: chunks.last(),
                range_tombstones: span_tombstones(ts, records_span(chunks.last()), full),
            };
            assert(payload_records(rest.push(p)).drop_last() =~= payload_records(rest));
        } else {
            assert(concat(chunks) =~= concat(chunks.drop_last()));
        }
    }
}

proof fn lemma_tombstone_payload_records(groups: Seq<Seq<TombstoneView>>)
    ensures
        concat(payload_records(groups.map_values(|g: Seq<TombstoneView>| tombstone_payload(g)))) == Seq::<
            EntryView,
        >::empty(),
    decreases groups.len(),
{
    if groups.len() > 0 {
        lemma_tombstone_payload_records(groups.drop_last());
        let mk = |g: Seq<TombstoneView>| tombstone_payload(g);
        assert(payload_records(groups.map_values(mk)).drop_last() =~= payload_records(groups.drop_last().map_values(mk)));
    }
}

proof fn lemma_chunk_fold_records(groups: Seq<Seq<EntryView>>, target: u64)
    ensures
        concat(chunk_fold(groups, target).0) + chunk_fold(groups, target).1 == concat(groups),
    decreases groups.len(),
{
    if groups.len() > 0 {
        lemma_chunk_fold_records(groups.drop_last(), target);
        let prev = chunk_fold(groups.drop_last(), target);
        let g = groups.last();
        if g.len() == 0 {
            assert(concat(groups) =~= concat(groups.drop_last()));
        } else {
            let bytes = records_bytes(g) as u64;
            if prev.1.len() > 0 && sat_add(prev.2, bytes) > target {
                assert(prev.0.push(prev.1).drop_last() =~= prev.0);
                assert(concat(prev.0.push(prev.1)) + g =~= concat(prev.0) + prev.1 + g);
            } else {
                assert(concat(prev.0) + (prev.1 + g) =~= concat(prev.0) + prev.1 + g);
            }
        }
    }
}

/// A compaction's output tables hold exactly the records that compaction
/// keeps, each once and in order: the records of the payloads, one table
/// after the other, are the compacted records of the user keys, one key
/// after the other.
pub proof fn lemma_payloads_hold_every_record(groups: Seq<Seq<EntryView>>, ts: Seq<TableRangeTombstone>, full: bool, target: u64)
    ensures
        concat(payload_records(build_spec(groups, ts, full, target))) == concat(groups),
{
    let chunks = final_chunks(groups, target);
    let tv = tombstone_views(kept_tombstones(ts, groups, full));
    let mk = |g: Seq<TombstoneView>| tombstone_payload(g);
    let tail = tombstone_groups(unassigned(tv, chunks), target).map_values(mk);
    assert(payload_records(chunk_payloads(chunks, tv, full) + tail) =~= payload_records(chunk_payloads(chunks, tv, full))
        + payload_records(tail));
    lemma_concat_append(payload_records(chunk_payloads(chunks, tv, full)), payload_records(tail));
    lemma_chunk_payload_records(chunks, tv, full);
    lemma_tombstone_payload_records(tombstone_groups(unassigned(tv, chunks), target));
    lemma_chunk_fold_records(groups, target);
    let state = chunk_fold(groups, target);
    if state.1.len() > 0 {
        assert(state.0.push(state.1).drop_last() =~= state.0);
    } else {
        assert(concat(state.0) + state.1 =~= concat(state.0));
    }
    assert(concat(chunks) + Seq::<EntryView>::empty() =~= concat(chunks));
}

} // verus!
