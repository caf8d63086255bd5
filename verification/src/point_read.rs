//! The decisions of a point read: which of the newest visible records that
//! the memtables and the tables hold for a key wins, which tables can still
//! hold a newer one, and whether the winner is a value the read sees.

use vstd::prelude::*;
use crate::blob::TableEntry;
use crate::internal_key::{internal_key_less, key_lt, ValueKind};
use crate::iterator::{range_tombstones_cover, ScanRangeTombstone};
use crate::range_tombstone::RangeTombstoneIndex;
use crate::scan::hidden_by;
use crate::types::Sequence;

verus! {

/// A table whose newest record is at least as new as the candidate so far
/// may hold a newer record for the key; with no candidate, every table may.
pub fn table_may_have_newer_point_record(largest_sequence: Sequence, newest_candidate_sequence: Option<Sequence>) -> (r: bool)
    ensures
        r == match newest_candidate_sequence {
            None => true,
            Some(s) => largest_sequence.spec_get() >= s.spec_get(),
        },
{
    match newest_candidate_sequence {
        None => true,
        Some(s) => largest_sequence.get() >= s.get(),
    }
}

/// The candidate after offering `entry`: the entry replaces the candidate
/// when there is none or when its internal key sorts first (is newer).
pub open spec fn newer_candidate(candidate: Option<TableEntry>, entry: TableEntry) -> Option<TableEntry> {
    match candidate {
        None => Some(entry),
        Some(current) => if key_lt(entry.0@, current.0@) {
            Some(entry)
        } else {
            Some(current)
        },
    }
}

/// Keeps the newer of the candidate and `entry`.
pub fn keep_newer_point_candidate(candidate: &mut Option<TableEntry>, entry: TableEntry)
    ensures
        *final(candidate) == newer_candidate(*old(candidate), entry),
{
    let replace = match candidate {
        None => true,
        Some(current) => internal_key_less(&entry.0, &current.0),
    };
    if replace {
        *candidate = Some(entry);
    }
}

/// The newest record among a candidate and further entries, each offered in
/// turn.
pub open spec fn newest_candidate(first: Option<TableEntry>, entries: Seq<TableEntry>) -> Option<TableEntry>
    decreases entries.len(),
{
    if entries.len() == 0 {
        first
    } else {
        newer_candidate(newest_candidate(first, entries.drop_last()), entries.last())
    }
}

/// What a read at `read` returns for the winning record: a put that no
/// tombstone hides is its value; a hidden put, a delete or no record at all
/// is no value.
pub open spec fn point_visible(candidate: Option<TableEntry>, tombstones: Seq<ScanRangeTombstone>, read: u64) -> Option<TableEntry> {
    match candidate {
        None => None,
        Some(entry) => if entry.0@.kind == ValueKind::Put && !hidden_by(tombstones, entry.0@, read) {
            Some(entry)
        } else {
            None
        },
    }
}

/// The record a point read returns for a key: the newest among the newest
/// visible record of the memtables and that of each table searched, if it
/// is a put that no range tombstone hides from the read.
pub fn visible_point_record(
    memtable_candidate: Option<TableEntry>,
    table_candidates: Vec<TableEntry>,
    range_tombstones: &RangeTombstoneIndex<ScanRangeTombstone>,
    read_sequence: Sequence,
) -> (r: Option<TableEntry>)
    requires
        range_tombstones.well_formed(),
    ensures
        r == point_visible(
            newest_candidate(memtable_candidate, table_candidates@),
            range_tombstones@,
            read_sequence.spec_get(),
        ),
{
    let ghost all = table_candidates@;
    let mut candidate = memtable_candidate;
    let mut rest = table_candidates;
    let ghost mut i: int = 0;
    while rest.len() > 0
        invariant
            0 <= i <= all.len(),
            rest@ == all.skip(i),
            candidate == newest_candidate(memtable_candidate, all.take(i)),
        decreases rest@.len(),
    {
        let entry = rest.remove(0);
        proof {
            assert(all.skip(i)[0] == all[i]);
            assert(all.take(i + 1).drop_last() =~= all.take(i));
            assert(all.take(i + 1).last() == all[i]);
            assert(rest@ =~= all.skip(i + 1));
        }
        keep_newer_point_candidate(&mut candidate, entry);
        proof {
            i = i + 1;
        }
    }
    proof {
        assert(all.take(i) =~= all);
    }
    match candidate {
        None => None,
        Some(entry) => {
            match entry.0.kind() {
                ValueKind::Put => {
                    let covered = range_tombstones_cover(
                        range_tombstones,
                        entry.0.user_key(),
                        entry.0.sequence(),
                        entry.0.batch_index(),
                        read_sequence,
                    );
                    proof {
                        let k = entry.0@;
                        let ts = range_tombstones@;
                        if covered {
                            let j = choose|j: int|
                                0 <= j < ts.len() && crate::iterator::hides_point(
                                    #[trigger] ts[j],
                                    k.user_key,
                                    k.sequence,
                                    k.batch_index,
                                    read_sequence.spec_get(),
                                );
                            assert(crate::iterator::hides_point(ts[j], k.user_key, k.sequence, k.batch_index, read_sequence.spec_get()));
                        }
                        assert(covered == hidden_by(ts, k, read_sequence.spec_get()));
                    }
                    if covered {
                        None
                    } else {
                        Some(entry)
                    }
                },
                _ => None,
            }
        },
    }
}

} // verus!
