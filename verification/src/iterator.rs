//! Pieces of ordered scans: scan direction, the merge order of sources,
//! prefix upper bounds, and which range tombstones hide a point record.

use vstd::prelude::*;
use crate::blob::TableEntry;
use crate::bytes::{bytes_order, compare_bytes, lemma_bytes_order_properties, Order};
use crate::range_tombstone::{key_in_range, key_is_in_range, RangeTombstoneIndex, RangeTombstoneLike};
use crate::types::{KeyRange, Sequence};

verus! {

/// Order in which a scan returns keys.
#[derive(Debug, Clone, Copy, PartialEq, Eq, Structural)]
pub enum Direction {
    Forward,
    Reverse,
}

impl Default for Direction {
    fn default() -> (r: Self)
        ensures
            r == Direction::Forward,
    {
        Direction::Forward
    }
}

/// Order of two keys in scan order: ascending forward, descending in
/// reverse.
pub open spec fn scan_order(left: Seq<u8>, right: Seq<u8>, direction: Direction) -> int {
    match direction {
        Direction::Forward => bytes_order(left, right),
        Direction::Reverse => bytes_order(right, left),
    }
}

pub fn compare_scan_keys(left: &[u8], right: &[u8], direction: Direction) -> (r: Order)
    ensures
        r.as_int() == scan_order(left@, right@, direction),
{
    match direction {
        Direction::Forward => compare_bytes(left, right),
        Direction::Reverse => compare_bytes(right, left),
    }
}

// ---------------------------------------------------------------- merge order

/// The current key of a scan source, waiting to be merged.
#[derive(Debug, Clone, PartialEq, Eq)]
pub struct SourceHeapEntry {
    pub user_key: Vec<u8>,
    pub source_index: usize,
    pub direction: Direction,
}

pub type HeapEntryView = (Seq<u8>, usize);

pub open spec fn heap_entry_view(e: SourceHeapEntry) -> HeapEntryView {
    (e.user_key@, e.source_index)
}

/// `a` comes out of the merge before `b`: its key is first in scan order,
/// or the keys are equal and its source has the lower index.
pub open spec fn merges_before(a: HeapEntryView, b: HeapEntryView, direction: Direction) -> bool {
    scan_order(a.0, b.0, direction) < 0 || (a.0 == b.0 && a.1 < b.1)
}

/// Entries of the sources, taken out first in scan order.
pub struct SourceHeap {
    direction: Direction,
    entries: Vec<SourceHeapEntry>,
}

impl SourceHeap {
    pub closed spec fn spec_direction(&self) -> Direction {
        self.direction
    }

    /// The entries held, in no particular order.
    pub closed spec fn items(&self) -> Seq<HeapEntryView> {
        self.entries@.map_values(|e: SourceHeapEntry| heap_entry_view(e))
    }

    pub fn new(direction: Direction) -> (r: Self)
        ensures
            r.spec_direction() == direction,
            r.items().len() == 0,
    {
        SourceHeap { direction, entries: Vec::new() }
    }

    pub fn len(&self) -> (r: usize)
        ensures
            r == self.items().len(),
    {
        self.entries.len()
    }

    pub fn push(&mut self, user_key: Vec<u8>, source_index: usize)
        ensures
            final(self).spec_direction() == old(self).spec_direction(),
            final(self).items() == old(self).items().push((user_key@, source_index)),
    {
        let direction = self.direction;
        let ghost before = self.items();
        self.entries.push(SourceHeapEntry { user_key, source_index, direction });
        proof {
            assert(self.items() =~= before.push((user_key@, source_index)));
        }
    }

    /// Takes out the entry that merges first; `None` when empty.
    pub fn pop(&mut self) -> (r: Option<SourceHeapEntry>)
        ensures
            final(self).spec_direction() == old(self).spec_direction(),
            old(self).items().len() == 0 ==> r is None && final(self).items() == old(self).items(),
            old(self).items().len() > 0 ==> exists|i: int|
                0 <= i < old(self).items().len() && (r matches Some(e) && heap_entry_view(e)
                    == old(self).items()[i]) && final(self).items() == old(self).items().remove(i)
                    && forall|j: int|
                    0 <= j < old(self).items().len() ==> !merges_before(
                        #[trigger] old(self).items()[j],
                        old(self).items()[i],
                        old(self).spec_direction(),
                    ),
    {
        if self.entries.len() == 0 {
            return None;
        }
        let ghost items = self.items();
        let direction = self.direction;
        let mut best: usize = 0;
        let mut i: usize = 1;
        proof {
            lemma_bytes_order_properties(items[0].0, items[0].0);
        }
        while i < self.entries.len()
            invariant
                1 <= i <= self.entries@.len(),
                best < self.entries@.len(),
                items == self.items(),
                direction == self.direction,
                forall|j: int| 0 <= j < i ==> !merges_before(#[trigger] items[j], items[best as int], direction),
            decreases self.entries@.len() - i,
        {
            let candidate = &self.entries[i];
            let current = &self.entries[best];
            assert(items[i as int] == heap_entry_view(*candidate));
            assert(items[best as int] == heap_entry_view(*current));
            proof {
                lemma_bytes_order_properties(candidate.user_key@, current.user_key@);
            }
            let order = compare_scan_keys(candidate.user_key.as_slice(), current.user_key.as_slice(), direction);
            let better = match order {
                Order::Less => true,
                Order::Equal => candidate.source_index < current.source_index,
                Order::Greater => false,
            };
            if better {
                proof {
                    assert forall|j: int| 0 <= j < i + 1 implies !merges_before(
                        #[trigger] items[j],
                        items[i as int],
                        direction,
                    ) by {
                        if j < i {
                            lemma_merge_order(items[j], items[best as int], items[i as int], direction);
                        } else {
                            lemma_bytes_order_properties(items[j].0, items[j].0);
                        }
                    }
                }
                best = i;
            }
            i = i + 1;
        }
        let ghost b = best as int;
        let entry = self.entries.remove(best);
        proof {
            assert(self.items() =~= items.remove(b));
        }
        Some(entry)
    }
}

/// Merge order is a strict order: irreflexive and transitive through a
/// better entry.
proof fn lemma_merge_order(a: HeapEntryView, b: HeapEntryView, c: HeapEntryView, direction: Direction)
    requires
        !merges_before(a, b, direction),
        merges_before(c, b, direction),
    ensures
        !merges_before(a, c, direction),
{
    lemma_bytes_order_properties(a.0, b.0);
    lemma_bytes_order_properties(b.0, c.0);
    lemma_bytes_order_properties(a.0, c.0);
    lemma_bytes_order_properties(b.0, a.0);
    lemma_bytes_order_properties(c.0, b.0);
    lemma_bytes_order_properties(c.0, a.0);
    match direction {
        Direction::Forward => {
            if bytes_order(a.0, c.0) < 0 && bytes_order(c.0, b.0) <= 0 {
                crate::bytes::lemma_bytes_order_trans(a.0, c.0, b.0);
            }
            if bytes_order(c.0, b.0) < 0 && bytes_order(a.0, c.0) <= 0 {
                crate::bytes::lemma_bytes_order_trans(a.0, c.0, b.0);
            }
        },
        Direction::Reverse => {
            if bytes_order(c.0, a.0) < 0 && bytes_order(b.0, c.0) <= 0 {
                crate::bytes::lemma_bytes_order_trans(b.0, c.0, a.0);
            }
            if bytes_order(b.0, c.0) < 0 && bytes_order(c.0, a.0) <= 0 {
                crate::bytes::lemma_bytes_order_trans(b.0, c.0, a.0);
            }
        },
    }
}

// ---------------------------------------------------------------- prefixes

/// The smallest key after every key with this prefix: trailing `0xff`
/// bytes dropped and the last remaining byte incremented; `None` when no
/// byte remains.
pub open spec fn successor_of(prefix: Seq<u8>) -> Option<Seq<u8>>
    decreases prefix.len(),
{
    if prefix.len() == 0 {
        None
    } else if prefix.last() == 255 {
        successor_of(prefix.drop_last())
    } else {
        Some(prefix.drop_last().push((prefix.last() + 1) as u8))
    }
}

pub fn prefix_successor(prefix: &[u8]) -> (r: Option<Vec<u8>>)
    ensures
        match r {
            Some(end) => successor_of(prefix@) == Some(end@),
            None => successor_of(prefix@) is None,
        },
{
    let mut end = crate::bytes::to_vec(prefix);
    while end.len() > 0
        invariant
            successor_of(prefix@) == successor_of(end@),
        decreases end@.len(),
    {
        let last = end[end.len() - 1];
        if last == 255 {
            end.pop();
        } else {
            let n = end.len() - 1;
            let ghost before = end@;
            end.set(n, last + 1);
            proof {
                assert(end@ =~= before.drop_last().push((before.last() + 1) as u8));
            }
            return Some(end);
        }
    }
    None
}

// ---------------------------------------------------------------- range tombstones

/// A range tombstone seen by a scan.
#[derive(Debug, Clone, PartialEq, Eq)]
pub struct ScanRangeTombstone {
    pub range: KeyRange,
    pub sequence: Sequence,
    pub batch_index: u32,
}

impl RangeTombstoneLike for ScanRangeTombstone {
    open spec fn spec_range(&self) -> KeyRange {
        self.range
    }

    fn range(&self) -> (r: &KeyRange) {
        &self.range
    }
}

/// The tombstone hides a point record of `key` at `point_sequence` for a
/// read at `read_sequence`: the tombstone is visible to the read, covers the
/// key, and is newer than the record (or as new and later in its batch).
pub open spec fn hides_point(t: ScanRangeTombstone, key: Seq<u8>, point_sequence: u64, point_batch_index: u32, read_sequence: u64) -> bool {
    &&& t.sequence.spec_get() <= read_sequence
    &&& key_in_range(key, t.range)
    &&& (t.sequence.spec_get() > point_sequence || (t.sequence.spec_get() == point_sequence
        && t.batch_index > point_batch_index))
}

/// A range tombstone hides a record only from reads that see the
/// tombstone, only for keys in its range, and only for records older than
/// it; every such record it does hide.
pub proof fn lemma_tombstone_hides_only_older_visible_records(
    t: ScanRangeTombstone,
    key: Seq<u8>,
    point_sequence: u64,
    point_batch_index: u32,
    read_sequence: u64,
)
    ensures
        t.sequence.spec_get() > read_sequence ==> !hides_point(t, key, point_sequence, point_batch_index, read_sequence),
        !key_in_range(key, t.range) ==> !hides_point(t, key, point_sequence, point_batch_index, read_sequence),
        t.sequence.spec_get() < point_sequence ==> !hides_point(t, key, point_sequence, point_batch_index, read_sequence),
        t.sequence.spec_get() == point_sequence && t.batch_index <= point_batch_index ==> !hides_point(
            t,
            key,
            point_sequence,
            point_batch_index,
            read_sequence,
        ),
        t.sequence.spec_get() <= read_sequence && key_in_range(key, t.range) && point_sequence < t.sequence.spec_get()
            ==> hides_point(t, key, point_sequence, point_batch_index, read_sequence),
{
}

impl ScanRangeTombstone {
    pub fn new(range: KeyRange, sequence: Sequence, batch_index: u32) -> (r: Self)
        ensures
            r == (ScanRangeTombstone { range, sequence, batch_index }),
    {
        ScanRangeTombstone { range, sequence, batch_index }
    }

    pub fn covers_visible_point(&self, key: &[u8], point_sequence: Sequence, point_batch_index: u32, read_sequence: Sequence) -> (r: bool)
        ensures
            r == hides_point(*self, key@, point_sequence.spec_get(), point_batch_index, read_sequence.spec_get()),
            self.sequence.spec_get() > read_sequence.spec_get() ==> !r,
            !key_in_range(key@, self.range) ==> !r,
            self.sequence.spec_get() < point_sequence.spec_get() ==> !r,
            self.sequence.spec_get() <= read_sequence.spec_get() && key_in_range(key@, self.range)
                && point_sequence.spec_get() < self.sequence.spec_get() ==> r,
    {
        proof {
            lemma_tombstone_hides_only_older_visible_records(
                *self,
                key@,
                point_sequence.spec_get(),
                point_batch_index,
                read_sequence.spec_get(),
            );
        }
        if self.sequence.get() > read_sequence.get() || !key_is_in_range(key, &self.range) {
            return false;
        }
        self.sequence.get() > point_sequence.get() || (self.sequence.get() == point_sequence.get()
            && self.batch_index > point_batch_index)
    }
}

/// Some tombstone of the index hides the point record.
pub fn range_tombstones_cover(range_tombstones: &RangeTombstoneIndex<ScanRangeTombstone>, key: &[u8], point_sequence: Sequence, point_batch_index: u32, read_sequence: Sequence) -> (r: bool)
    requires
        range_tombstones.well_formed(),
    ensures
        r == exists|i: int|
            0 <= i < range_tombstones@.len() && hides_point(
                #[trigger] range_tombstones@[i],
                key@,
                point_sequence.spec_get(),
                point_batch_index,
                read_sequence.spec_get(),
            ),
{
    let covering = range_tombstones.covering_key(key);
    let ghost pred = |t: ScanRangeTombstone| key_in_range(key@, t.spec_range());
    let ghost all = range_tombstones@;
    let ghost found = crate::range_tombstone::deref_all(covering@);
    proof {
        assert(found == all.filter(pred));
        assert forall|i: int| 0 <= i < all.len() && pred(all[i]) implies found.contains(all[i]) by {
            all.lemma_filter_contains(pred, i);
        }
        assert forall|k: int| 0 <= k < found.len() implies all.contains(found[k]) && pred(found[k]) by {
            all.lemma_filter_pred(pred, k);
            assert(found.contains(found[k]));
            all.lemma_filter_contains_rev(pred, found[k]);
        }
    }
    let mut i: usize = 0;
    while i < covering.len()
        invariant
            i <= covering@.len(),
            found == crate::range_tombstone::deref_all(covering@),
            all == range_tombstones@,
            forall|k: int| 0 <= k < found.len() ==> all.contains(#[trigger] found[k]),
            forall|k: int|
                0 <= k < i ==> !hides_point(
                    #[trigger] found[k],
                    key@,
                    point_sequence.spec_get(),
                    point_batch_index,
                    read_sequence.spec_get(),
                ),
        decreases covering@.len() - i,
    {
        assert(found[i as int] == *covering@[i as int]);
        if covering[i].covers_visible_point(key, point_sequence, point_batch_index, read_sequence) {
            proof {
                let t = found[i as int];
                assert(all.contains(t));
                let j = choose|j: int| 0 <= j < all.len() && all[j] == t;
                assert(hides_point(all[j], key@, point_sequence.spec_get(), point_batch_index, read_sequence.spec_get()));
            }
            return true;
        }
        i = i + 1;
    }
    proof {
        assert forall|j: int| 0 <= j < all.len() implies !hides_point(
            #[trigger] all[j],
            key@,
            point_sequence.spec_get(),
            point_batch_index,
            read_sequence.spec_get(),
        ) by {
            if hides_point(all[j], key@, point_sequence.spec_get(), point_batch_index, read_sequence.spec_get()) {
                assert(pred(all[j]));
                assert(found.contains(all[j]));
                let k = choose|k: int| 0 <= k < found.len() && found[k] == all[j];
            }
        }
    }
    false
}

// ---------------------------------------------------------------- groups

/// The records of one user key from one source.
#[derive(Debug)]
pub struct RecordGroup {
    pub user_key: Vec<u8>,
    pub first: TableEntry,
    pub rest: Vec<TableEntry>,
}

/// Gathers the records of a key from several sources: the first group's
/// first record stays apart while it is alone; once a second group comes,
/// every record goes to `rest_records` in arrival order.
pub fn push_group_records(first_record: &mut Option<TableEntry>, rest_records: &mut Vec<TableEntry>, group: RecordGroup)
    ensures
        (*old(first_record) is None && old(rest_records)@.len() == 0) ==> *final(first_record) == Some(group.first)
            && final(rest_records)@ == group.rest@,
        !(*old(first_record) is None && old(rest_records)@.len() == 0) ==> *final(first_record) is None
            && final(rest_records)@ == old(rest_records)@ + (match *old(first_record) {
            Some(f) => seq![f],
            None => Seq::empty(),
        }) + seq![group.first] + group.rest@,
{
    let RecordGroup { user_key: _, first, rest } = group;
    let mut rest = rest;
    if first_record.is_none() && rest_records.len() == 0 {
        *first_record = Some(first);
        rest_records.append(&mut rest);
        return;
    }
    let previous = first_record.take();
    match previous {
        Some(previous_first) => rest_records.push(previous_first),
        None => {},
    }
    rest_records.push(first);
    rest_records.append(&mut rest);
}

} // verus!
