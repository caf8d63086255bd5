//! What a scan selects: where a key stands against a range or a prefix, the
//! internal-key bounds of a scan, the order of a user key's records, and the
//! record a scan reads for a user key.

use vstd::prelude::*;
use crate::blob::TableEntry;
use crate::bytes::{bytes_lt, bytes_less, starts_with};
use crate::compaction::{key_is_after_end, key_is_before_start};
use crate::internal_key::{
    first_internal_key_for_user, last_internal_key_for_user, InternalKey, InternalKeyView, ValueKind,
};
use crate::iterator::{hides_point, prefix_successor, range_tombstones_cover, successor_of, RecordGroup, ScanRangeTombstone};
use crate::lsm::compact::{entry_view, entry_views, sort_entries, view_keys, EntryView};
use crate::internal_key::keys_sorted;
use crate::range_tombstone::{key_after_end, key_before_start, RangeTombstoneIndex};
use crate::types::{bound_view, Bound, KeyRange, Sequence, SpecBound};

verus! {

// ---------------------------------------------------------------- selectors

/// What a scan selects: a range of keys, or the keys with a prefix.
#[derive(Debug, Clone, PartialEq, Eq)]
pub enum ScanSelector {
    Range(KeyRange),
    Prefix(Vec<u8>),
}

/// Where a key stands for a forward scan.
#[derive(Debug, Clone, Copy, PartialEq, Eq, Structural)]
pub enum ForwardKeyState {
    Before,
    Match,
    After,
}

/// Where a key stands for a reverse scan.
#[derive(Debug, Clone, Copy, PartialEq, Eq, Structural)]
pub enum ReverseKeyState {
    Above,
    Match,
    Below,
}

/// A forward scan has not reached a key before the selection, takes a key
/// in it and stops at a key past it.
pub open spec fn spec_forward_state(selector: ScanSelector, key: Seq<u8>) -> ForwardKeyState {
    match selector {
        ScanSelector::Range(range) => if key_before_start(key, range.start_view()) {
            ForwardKeyState::Before
        } else if key_after_end(key, range.end_view()) {
            ForwardKeyState::After
        } else {
            ForwardKeyState::Match
        },
        ScanSelector::Prefix(prefix) => if bytes_lt(key, prefix@) {
            ForwardKeyState::Before
        } else if prefix@.is_prefix_of(key) {
            ForwardKeyState::Match
        } else {
            ForwardKeyState::After
        },
    }
}

/// A reverse scan has not reached a key above the selection, takes a key in
/// it and stops at a key below it.
pub open spec fn spec_reverse_state(selector: ScanSelector, key: Seq<u8>) -> ReverseKeyState {
    match selector {
        ScanSelector::Range(range) => if key_after_end(key, range.end_view()) {
            ReverseKeyState::Above
        } else if key_before_start(key, range.start_view()) {
            ReverseKeyState::Below
        } else {
            ReverseKeyState::Match
        },
        ScanSelector::Prefix(prefix) => if prefix@.is_prefix_of(key) {
            ReverseKeyState::Match
        } else if bytes_lt(key, prefix@) {
            ReverseKeyState::Below
        } else {
            ReverseKeyState::Above
        },
    }
}

impl ScanSelector {
    pub fn forward_key_state(&self, key: &[u8]) -> (r: ForwardKeyState)
        ensures
            r == spec_forward_state(*self, key@),
    {
        match self {
            ScanSelector::Range(range) => {
                if key_is_before_start(key, &range.start) {
                    ForwardKeyState::Before
                } else if key_is_after_end(key, &range.end) {
                    ForwardKeyState::After
                } else {
                    ForwardKeyState::Match
                }
            },
            ScanSelector::Prefix(prefix) => {
                if bytes_less(key, prefix.as_slice()) {
                    ForwardKeyState::Before
                } else if starts_with(key, prefix.as_slice()) {
                    ForwardKeyState::Match
                } else {
                    ForwardKeyState::After
                }
            },
        }
    }

    pub fn reverse_key_state(&self, key: &[u8]) -> (r: ReverseKeyState)
        ensures
            r == spec_reverse_state(*self, key@),
    {
        match self {
            ScanSelector::Range(range) => {
                if key_is_after_end(key, &range.end) {
                    ReverseKeyState::Above
                } else if key_is_before_start(key, &range.start) {
                    ReverseKeyState::Below
                } else {
                    ReverseKeyState::Match
                }
            },
            ScanSelector::Prefix(prefix) => {
                if starts_with(key, prefix.as_slice()) {
                    ReverseKeyState::Match
                } else if bytes_less(key, prefix.as_slice()) {
                    ReverseKeyState::Below
                } else {
                    ReverseKeyState::Above
                }
            },
        }
    }

    /// The prefix a prefix scan selects.
    pub fn prefix(&self) -> (r: Option<&[u8]>)
        ensures
            match *self {
                ScanSelector::Range(_) => r is None,
                ScanSelector::Prefix(p) => r matches Some(q) && q@ == p@,
            },
    {
        match self {
            ScanSelector::Range(_) => None,
            ScanSelector::Prefix(prefix) => Some(prefix.as_slice()),
        }
    }
}

// ---------------------------------------------------------------- internal-key bounds

/// The first internal key of a user key.
pub open spec fn first_key_of(user_key: Seq<u8>) -> InternalKeyView {
    InternalKeyView { user_key, sequence: u64::MAX, kind: ValueKind::Put, batch_index: u32::MAX }
}

/// The last internal key of a user key.
pub open spec fn last_key_of(user_key: Seq<u8>) -> InternalKeyView {
    InternalKeyView { user_key, sequence: 0, kind: ValueKind::RangeDelete, batch_index: 0 }
}

pub open spec fn key_bound_view(bound: Bound<InternalKey>) -> Bound<InternalKeyView> {
    match bound {
        Bound::Included(k) => Bound::Included(k@),
        Bound::Excluded(k) => Bound::Excluded(k@),
        Bound::Unbounded => Bound::Unbounded,
    }
}

/// The internal-key bound where a scan from a user-key start bound begins:
/// before every record of an included key, after every record of an
/// excluded one.
pub open spec fn spec_start_bound(start: SpecBound) -> Bound<InternalKeyView> {
    match start {
        SpecBound::Included(k) => Bound::Included(first_key_of(k)),
        SpecBound::Excluded(k) => Bound::Excluded(last_key_of(k)),
        SpecBound::Unbounded => Bound::Unbounded,
    }
}

/// The internal-key bound where a scan up to a user-key end bound stops:
/// after every record of an included key, before every record of an
/// excluded one.
pub open spec fn spec_end_bound(end: SpecBound) -> Bound<InternalKeyView> {
    match end {
        SpecBound::Included(k) => Bound::Included(last_key_of(k)),
        SpecBound::Excluded(k) => Bound::Excluded(first_key_of(k)),
        SpecBound::Unbounded => Bound::Unbounded,
    }
}

/// The internal-key bounds of a scan: those of the range, or from the
/// prefix's first key to the first key of the prefix's successor.
pub open spec fn spec_scan_bounds(selector: ScanSelector) -> (Bound<InternalKeyView>, Bound<InternalKeyView>) {
    match selector {
        ScanSelector::Range(range) => (spec_start_bound(range.start_view()), spec_end_bound(range.end_view())),
        ScanSelector::Prefix(prefix) => (
            Bound::Included(first_key_of(prefix@)),
            match successor_of(prefix@) {
                Some(end) => Bound::Excluded(first_key_of(end)),
                None => Bound::Unbounded,
            },
        ),
    }
}

/// An internal key lies at or after an internal-key start bound.
pub open spec fn within_start(bound: Bound<InternalKeyView>, x: InternalKeyView) -> bool {
    match bound {
        Bound::Included(b) => crate::internal_key::key_le(b, x),
        Bound::Excluded(b) => crate::internal_key::key_lt(b, x),
        Bound::Unbounded => true,
    }
}

/// An internal key lies at or before an internal-key end bound.
pub open spec fn within_end(bound: Bound<InternalKeyView>, x: InternalKeyView) -> bool {
    match bound {
        Bound::Included(b) => crate::internal_key::key_le(x, b),
        Bound::Excluded(b) => crate::internal_key::key_lt(x, b),
        Bound::Unbounded => true,
    }
}

/// A scan's internal-key start bound admits exactly the records whose user
/// key the user-key start bound admits, whatever their version.
pub proof fn lemma_start_bound_keeps_user_keys(start: SpecBound, x: InternalKeyView)
    ensures
        within_start(spec_start_bound(start), x) <==> !key_before_start(x.user_key, start),
{
    match start {
        SpecBound::Included(k) => crate::bytes::lemma_bytes_order_properties(x.user_key, k),
        SpecBound::Excluded(k) => crate::bytes::lemma_bytes_order_properties(x.user_key, k),
        SpecBound::Unbounded => {},
    }
}

/// A scan's internal-key end bound admits exactly the records whose user key
/// the user-key end bound admits, whatever their version: every record of
/// an included end key, none of an excluded one.
pub proof fn lemma_end_bound_keeps_user_keys(end: SpecBound, x: InternalKeyView)
    ensures
        within_end(spec_end_bound(end), x) <==> !key_after_end(x.user_key, end),
{
    match end {
        SpecBound::Included(k) => crate::bytes::lemma_bytes_order_properties(x.user_key, k),
        SpecBound::Excluded(k) => crate::bytes::lemma_bytes_order_properties(x.user_key, k),
        SpecBound::Unbounded => {},
    }
}

pub fn memtable_start_bound(start: &Bound<Vec<u8>>) -> (r: Bound<InternalKey>)
    ensures
        key_bound_view(r) == spec_start_bound(bound_view(*start)),
        forall|x: InternalKeyView|
            #[trigger] within_start(key_bound_view(r), x) <==> !key_before_start(x.user_key, bound_view(*start)),
{
    proof {
        assert forall|x: InternalKeyView| #[trigger] within_start(spec_start_bound(bound_view(*start)), x) <==> !key_before_start(
            x.user_key,
            bound_view(*start),
        ) by {
            lemma_start_bound_keeps_user_keys(bound_view(*start), x);
        }
    }
    match start {
        Bound::Included(key) => Bound::Included(first_internal_key_for_user(key.as_slice())),
        Bound::Excluded(key) => Bound::Excluded(last_internal_key_for_user(key.as_slice())),
        Bound::Unbounded => Bound::Unbounded,
    }
}

pub fn memtable_end_bound(end: &Bound<Vec<u8>>) -> (r: Bound<InternalKey>)
    ensures
        key_bound_view(r) == spec_end_bound(bound_view(*end)),
        forall|x: InternalKeyView|
            #[trigger] within_end(key_bound_view(r), x) <==> !key_after_end(x.user_key, bound_view(*end)),
{
    proof {
        assert forall|x: InternalKeyView| #[trigger] within_end(spec_end_bound(bound_view(*end)), x) <==> !key_after_end(
            x.user_key,
            bound_view(*end),
        ) by {
            lemma_end_bound_keeps_user_keys(bound_view(*end), x);
        }
    }
    match end {
        Bound::Included(key) => Bound::Included(last_internal_key_for_user(key.as_slice())),
        Bound::Excluded(key) => Bound::Excluded(first_internal_key_for_user(key.as_slice())),
        Bound::Unbounded => Bound::Unbounded,
    }
}

pub fn memtable_scan_bounds(selector: &ScanSelector) -> (r: (Bound<InternalKey>, Bound<InternalKey>))
    ensures
        (key_bound_view(r.0), key_bound_view(r.1)) == spec_scan_bounds(*selector),
{
    match selector {
        ScanSelector::Range(range) => (memtable_start_bound(&range.start), memtable_end_bound(&range.end)),
        ScanSelector::Prefix(prefix) => {
            let start = Bound::Included(first_internal_key_for_user(prefix.as_slice()));
            let end = match prefix_successor(prefix.as_slice()) {
                Some(end) => Bound::Excluded(first_internal_key_for_user(end.as_slice())),
                None => Bound::Unbounded,
            };
            (start, end)
        },
    }
}

// ---------------------------------------------------------------- record order

/// `sorted` holds the records in internal-key order.
pub open spec fn sorted_records_of(records: Seq<TableEntry>, sorted: Seq<TableEntry>) -> bool {
    sorted.to_multiset() == records.to_multiset() && keys_sorted(view_keys(entry_views(sorted)))
}

/// Orders a user key's records by internal key: the first record and the
/// rest. A record alone stays as it is.
pub fn sort_group_records(first: TableEntry, rest: Vec<TableEntry>) -> (r: (TableEntry, Vec<TableEntry>))
    ensures
        rest@.len() == 0 ==> r.0 == first && r.1@.len() == 0,
        exists|sorted: Seq<TableEntry>|
            sorted_records_of(rest@.push(first), sorted) && #[trigger] sorted.len() > 0 && r.0 == sorted[0]
                && r.1@ == sorted.skip(1),
{
    broadcast use vstd::seq_lib::group_to_multiset_ensures;

    if rest.len() == 0 {
        proof {
            let sorted = seq![first];
            assert(rest@.push(first) =~= sorted);
            assert(sorted.skip(1) =~= rest@);
            assert(keys_sorted(view_keys(entry_views(sorted))));
        }
        return (first, rest);
    }
    let mut all = rest;
    all.push(first);
    let ghost pushed = all@;
    let mut sorted = sort_entries(all);
    let ghost s = sorted@;
    proof {
        assert(s.to_multiset().len() == pushed.len());
    }
    let head = sorted.remove(0);
    proof {
        assert(sorted_records_of(pushed, s));
        assert(s.skip(1) =~= sorted@);
    }
    (head, sorted)
}

/// The records of one user key as a group: the last record of `records` is
/// ordered with the others, and the first in internal-key order leads.
pub fn record_group_from_records(user_key: Vec<u8>, records: Vec<TableEntry>) -> (r: RecordGroup)
    requires
        records@.len() > 0,
    ensures
        r.user_key@ == user_key@,
        exists|sorted: Seq<TableEntry>|
            sorted_records_of(records@, sorted) && #[trigger] sorted.len() > 0 && r.first == sorted[0]
                && r.rest@ == sorted.skip(1),
{
    let mut records = records;
    let ghost all = records@;
    let first = records.pop().unwrap();
    proof {
        assert(records@.push(first) =~= all);
    }
    let (first, rest) = sort_group_records(first, records);
    RecordGroup { user_key, first, rest }
}

// ---------------------------------------------------------------- visibility

/// Some tombstone hides the point record.
pub open spec fn hidden_by(tombstones: Seq<ScanRangeTombstone>, key: InternalKeyView, read: u64) -> bool {
    exists|i: int|
        0 <= i < tombstones.len() && hides_point(#[trigger] tombstones[i], key.user_key, key.sequence, key.batch_index, read)
}

/// The record a read at `read` sees among a user key's records in
/// internal-key order, from position `i`: records newer than the read are
/// skipped, and so are range deletes; the first other record decides: a put
/// that no tombstone hides is seen, a hidden put or a point delete hides the
/// key.
pub open spec fn visible_from(records: Seq<EntryView>, i: int, tombstones: Seq<ScanRangeTombstone>, read: u64) -> Option<int>
    decreases records.len() - i,
{
    if i < 0 || i >= records.len() {
        None
    } else if records[i].0.sequence > read {
        visible_from(records, i + 1, tombstones, read)
    } else {
        match records[i].0.kind {
            ValueKind::Put => if hidden_by(tombstones, records[i].0, read) {
                None
            } else {
                Some(i)
            },
            ValueKind::PointDelete => None,
            ValueKind::RangeDelete => visible_from(records, i + 1, tombstones, read),
        }
    }
}

/// Position of the record a read at `read_sequence` sees among a user key's
/// records in internal-key order, or `None` when the key is not visible.
pub fn visible_record_index(records: &[TableEntry], range_tombstones: &RangeTombstoneIndex<ScanRangeTombstone>, read_sequence: Sequence) -> (r: Option<usize>)
    requires
        range_tombstones.well_formed(),
    ensures
        match (r, visible_from(entry_views(records@), 0, range_tombstones@, read_sequence.spec_get())) {
            (Some(i), Some(j)) => i as int == j,
            (None, None) => true,
            _ => false,
        },
        r matches Some(i) ==> i < records@.len(),
{
    let ghost rv = entry_views(records@);
    let ghost ts = range_tombstones@;
    let ghost read = read_sequence.spec_get();
    let mut i: usize = 0;
    while i < records.len()
        invariant
            i <= records@.len(),
            rv == entry_views(records@),
            ts == range_tombstones@,
            read == read_sequence.spec_get(),
            range_tombstones.well_formed(),
            visible_from(rv, 0, ts, read) == visible_from(rv, i as int, ts, read),
        decreases records@.len() - i,
    {
        let key = &records[i].0;
        proof {
            assert(rv[i as int] == entry_view(records@[i as int]));
        }
        if key.sequence().get() <= read_sequence.get() {
            match key.kind() {
                ValueKind::Put => {
                    let covered = range_tombstones_cover(range_tombstones, key.user_key(), key.sequence(), key.batch_index(), read_sequence);
                    proof {
                        let k = rv[i as int].0;
                        assert(k == key@);
                        if covered {
                            let j = choose|j: int| 0 <= j < ts.len() && hides_point(#[trigger] ts[j], key@.user_key, key@.sequence, key@.batch_index, read);
                            assert(hides_point(ts[j], k.user_key, k.sequence, k.batch_index, read));
                        }
                        assert(covered == hidden_by(ts, k, read));
                        assert(visible_from(rv, i as int, ts, read) == if covered { None } else { Some(i as int) });
                    }
                    if covered {
                        return None;
                    }
                    return Some(i);
                },
                ValueKind::PointDelete => {
                    return None;
                },
                ValueKind::RangeDelete => {},
            }
        }
        i = i + 1;
    }
    None
}

/// The record a read at `read_sequence` sees among a user key's records from
/// several sources: with more than one record they are first ordered by
/// internal key.
pub fn visible_record(first_record: TableEntry, rest_records: Vec<TableEntry>, range_tombstones: &RangeTombstoneIndex<ScanRangeTombstone>, read_sequence: Sequence) -> (r: Option<TableEntry>)
    requires
        range_tombstones.well_formed(),
    ensures
        exists|sorted: Seq<TableEntry>|
            #[trigger] sorted_records_of(rest_records@.push(first_record), sorted) && (rest_records@.len() == 0
                ==> sorted == seq![first_record]) && match visible_from(
                entry_views(sorted),
                0,
                range_tombstones@,
                read_sequence.spec_get(),
            ) {
                Some(i) => r == Some(sorted[i]),
                None => r is None,
            },
{
    broadcast use vstd::seq_lib::group_to_multiset_ensures;

    let ghost pushed = rest_records@.push(first_record);
    let records: Vec<TableEntry> = if rest_records.len() == 0 {
        let mut one = rest_records;
        one.push(first_record);
        proof {
            assert(one@ =~= seq![first_record]);
            assert(keys_sorted(view_keys(entry_views(one@))));
        }
        one
    } else {
        let mut all = rest_records;
        all.push(first_record);
        sort_entries(all)
    };
    let ghost sorted = records@;
    match visible_record_index(records.as_slice(), range_tombstones, read_sequence) {
        Some(i) => {
            let mut records = records;
            let record = records.remove(i);
            proof {
                assert(sorted_records_of(pushed, sorted));
            }
            Some(record)
        },
        None => {
            proof {
                assert(sorted_records_of(pushed, sorted));
            }
            None
        },
    }
}

} // verus!
