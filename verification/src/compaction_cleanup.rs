//! What a finished compaction leaves to clean up: the input tables that no
//! output kept, and the blob files that no live table refers to any more.

use vstd::prelude::*;
use crate::table::{TableId, TableProperties};

verus! {

/// Whether an id is among the given ids.
fn contains_table_id(ids: &[TableId], id: TableId) -> (r: bool)
    ensures
        r == ids@.contains(id),
{
    let mut i: usize = 0;
    while i < ids.len()
        invariant
            i <= ids@.len(),
            forall|k: int| 0 <= k < i ==> ids@[k] != id,
        decreases ids@.len() - i,
    {
        if ids[i] == id {
            return true;
        }
        i = i + 1;
    }
    false
}

/// The input tables whose ids no output table carries: a table moved
/// without rewriting keeps its id and stays.
pub fn obsolete_table_ids(input_table_ids: &[TableId], output_table_ids: &[TableId]) -> (r: Vec<TableId>)
    ensures
        r@ == input_table_ids@.filter(|id: TableId| !output_table_ids@.contains(id)),
{
    let mut ids: Vec<TableId> = Vec::new();
    let mut i: usize = 0;
    while i < input_table_ids.len()
        invariant
            i <= input_table_ids@.len(),
            ids@ == input_table_ids@.take(i as int).filter(|id: TableId| !output_table_ids@.contains(id)),
        decreases input_table_ids@.len() - i,
    {
        let id = input_table_ids[i];
        proof {
            reveal(Seq::filter);
            assert(input_table_ids@.take(i + 1).drop_last() =~= input_table_ids@.take(i as int));
            assert(input_table_ids@.take(i + 1).last() == id);
        }
        if !contains_table_id(output_table_ids, id) {
            ids.push(id);
        }
        i = i + 1;
    }
    proof {
        assert(input_table_ids@.take(i as int) =~= input_table_ids@);
    }
    ids
}

/// Some table among `tables` refers to blob file `id`.
pub open spec fn refers_to_blob(tables: Seq<TableProperties>, id: u64) -> bool {
    exists|k: int| 0 <= k < tables.len() && (#[trigger] tables[k]).blob_file_ids@.contains(id)
}

/// Some live table outside the compaction's inputs refers to blob file `id`.
pub open spec fn kept_elsewhere(live_tables: Seq<TableProperties>, input_table_ids: Seq<TableId>, id: u64) -> bool {
    exists|k: int|
        0 <= k < live_tables.len() && !input_table_ids.contains((#[trigger] live_tables[k]).id)
            && live_tables[k].blob_file_ids@.contains(id)
}

/// A blob file becomes obsolete with a compaction when an input table
/// refers to it and neither an output table nor a live table outside the
/// inputs does.
pub open spec fn blob_obsolete_after(
    input_table_ids: Seq<TableId>,
    input_tables: Seq<TableProperties>,
    output_tables: Seq<TableProperties>,
    live_tables: Seq<TableProperties>,
    id: u64,
) -> bool {
    &&& refers_to_blob(input_tables, id)
    &&& !refers_to_blob(output_tables, id)
    &&& !kept_elsewhere(live_tables, input_table_ids, id)
}

pub open spec fn strictly_increasing(s: Seq<u64>) -> bool {
    forall|i: int, j: int| 0 <= i < j < s.len() ==> s[i] < s[j]
}

pub(crate) fn contains_blob_id(ids: &[u64], id: u64) -> (r: bool)
    ensures
        r == ids@.contains(id),
{
    let mut i: usize = 0;
    while i < ids.len()
        invariant
            i <= ids@.len(),
            forall|k: int| 0 <= k < i ==> ids@[k] != id,
        decreases ids@.len() - i,
    {
        if ids[i] == id {
            return true;
        }
        i = i + 1;
    }
    false
}

fn tables_refer_to(tables: &[TableProperties], id: u64) -> (r: bool)
    ensures
        r == refers_to_blob(tables@, id),
{
    let mut i: usize = 0;
    while i < tables.len()
        invariant
            i <= tables@.len(),
            forall|k: int| 0 <= k < i ==> !(#[trigger] tables@[k]).blob_file_ids@.contains(id),
        decreases tables@.len() - i,
    {
        if contains_blob_id(tables[i].blob_file_ids.as_slice(), id) {
            return true;
        }
        i = i + 1;
    }
    false
}

fn kept_by_other_tables(live_tables: &[TableProperties], input_table_ids: &[TableId], id: u64) -> (r: bool)
    ensures
        r == kept_elsewhere(live_tables@, input_table_ids@, id),
{
    let mut i: usize = 0;
    while i < live_tables.len()
        invariant
            i <= live_tables@.len(),
            forall|k: int|
                0 <= k < i ==> !(!input_table_ids@.contains((#[trigger] live_tables@[k]).id)
                    && live_tables@[k].blob_file_ids@.contains(id)),
        decreases live_tables@.len() - i,
    {
        if !contains_table_id(input_table_ids, live_tables[i].id) && contains_blob_id(
            live_tables[i].blob_file_ids.as_slice(),
            id,
        ) {
            return true;
        }
        i = i + 1;
    }
    false
}

/// Inserts an id that is not there yet into strictly increasing ids.
pub(crate) fn insert_blob_id(ids: &mut Vec<u64>, id: u64)
    requires
        strictly_increasing(old(ids)@),
        !old(ids)@.contains(id),
    ensures
        strictly_increasing(final(ids)@),
        forall|x: u64| final(ids)@.contains(x) <==> (old(ids)@.contains(x) || x == id),
{
    let mut p: usize = 0;
    while p < ids.len() && ids[p] < id
        invariant
            p <= ids@.len(),
            forall|k: int| 0 <= k < p ==> ids@[k] < id,
        decreases ids@.len() - p,
    {
        p = p + 1;
    }
    let ghost before = ids@;
    ids.insert(p, id);
    proof {
        assert(ids@ =~= before.take(p as int).push(id) + before.skip(p as int));
        assert forall|k: int| p <= k < before.len() implies before[k] > id by {
            assert(before[p as int] >= id);
            assert(before[p as int] != id);
        }
        assert forall|x: u64| ids@.contains(x) <==> (before.contains(x) || x == id) by {
            if ids@.contains(x) {
                let k = choose|k: int| 0 <= k < ids@.len() && ids@[k] == x;
                if k < p {
                    assert(before[k] == x);
                } else if k > p {
                    assert(before[k - 1] == x);
                }
            }
            if before.contains(x) {
                let k = choose|k: int| 0 <= k < before.len() && before[k] == x;
                if k < p {
                    assert(ids@[k] == x);
                } else {
                    assert(ids@[k + 1] == x);
                }
            }
            if x == id {
                assert(ids@[p as int] == id);
            }
        }
    }
}

/// The blob files that a compaction makes obsolete, in ascending order:
/// those an input table refers to and neither an output table nor a live
/// table outside the inputs does.
pub fn obsolete_blob_ids_for_compaction(
    input_table_ids: &[TableId],
    input_tables: &[TableProperties],
    output_tables: &[TableProperties],
    live_tables: &[TableProperties],
) -> (r: Vec<u64>)
    ensures
        strictly_increasing(r@),
        forall|id: u64|
            r@.contains(id) <==> blob_obsolete_after(
                input_table_ids@,
                input_tables@,
                output_tables@,
                live_tables@,
                id,
            ),
{
    let mut ids: Vec<u64> = Vec::new();
    let mut i: usize = 0;
    while i < input_tables.len()
        invariant
            i <= input_tables@.len(),
            strictly_increasing(ids@),
            forall|id: u64|
                ids@.contains(id) <==> (refers_to_blob(input_tables@.take(i as int), id) && !refers_to_blob(
                    output_tables@,
                    id,
                ) && !kept_elsewhere(live_tables@, input_table_ids@, id)),
        decreases input_tables@.len() - i,
    {
        let blob_ids = input_tables[i].blob_file_ids.as_slice();
        let ghost before = ids@;
        let mut j: usize = 0;
        while j < blob_ids.len()
            invariant
                i < input_tables@.len(),
                blob_ids@ == input_tables@[i as int].blob_file_ids@,
                j <= blob_ids@.len(),
                strictly_increasing(ids@),
                forall|id: u64|
                    ids@.contains(id) <==> ((before.contains(id) || blob_ids@.take(j as int).contains(id))
                        && !refers_to_blob(output_tables@, id) && !kept_elsewhere(
                        live_tables@,
                        input_table_ids@,
                        id,
                    )),
            decreases blob_ids@.len() - j,
        {
            let id = blob_ids[j];
            proof {
                assert(blob_ids@.take(j + 1) =~= blob_ids@.take(j as int).push(id));
            }
            let ghost old_ids = ids@;
            let present = contains_blob_id(ids.as_slice(), id);
            let in_output = tables_refer_to(output_tables, id);
            let elsewhere = kept_by_other_tables(live_tables, input_table_ids, id);
            if !present && !in_output && !elsewhere {
                insert_blob_id(&mut ids, id);
            }
            proof {
                assert forall|x: u64|
                    ids@.contains(x) <==> ((before.contains(x) || blob_ids@.take(j + 1).contains(x))
                        && !refers_to_blob(output_tables@, x) && !kept_elsewhere(
                        live_tables@,
                        input_table_ids@,
                        x,
                    )) by {
                    assert(old_ids.contains(x) <==> ((before.contains(x) || blob_ids@.take(j as int).contains(x))
                        && !refers_to_blob(output_tables@, x) && !kept_elsewhere(
                        live_tables@,
                        input_table_ids@,
                        x,
                    )));
                    if blob_ids@.take(j + 1).contains(x) {
                        let k = choose|k: int| 0 <= k < j + 1 && #[trigger] blob_ids@.take(j + 1)[k] == x;
                        if k < j {
                            assert(blob_ids@.take(j as int)[k] == x);
                        }
                    }
                    if blob_ids@.take(j as int).contains(x) {
                        let k = choose|k: int| 0 <= k < j && #[trigger] blob_ids@.take(j as int)[k] == x;
                        assert(blob_ids@.take(j + 1)[k] == x);
                    }
                    if x == id {
                        assert(blob_ids@.take(j + 1)[j as int] == x);
                    }
                }
            }
            j = j + 1;
        }
        proof {
            assert(blob_ids@.take(j as int) =~= blob_ids@);
            let t = input_tables@.take(i + 1);
            assert forall|id: u64| refers_to_blob(t, id) <==> (refers_to_blob(input_tables@.take(i as int), id)
                || blob_ids@.contains(id)) by {
                if refers_to_blob(t, id) {
                    let k = choose|k: int| 0 <= k < t.len() && (#[trigger] t[k]).blob_file_ids@.contains(id);
                    if k < i {
                        assert(input_tables@.take(i as int)[k] == t[k]);
                    }
                }
                if refers_to_blob(input_tables@.take(i as int), id) {
                    let k = choose|k: int|
                        0 <= k < i && (#[trigger] input_tables@.take(i as int)[k]).blob_file_ids@.contains(id);
                    assert(t[k] == input_tables@.take(i as int)[k]);
                }
                if blob_ids@.contains(id) {
                    assert(t[i as int] == input_tables@[i as int]);
                }
            }
            assert forall|id: u64|
                ids@.contains(id) <==> (refers_to_blob(t, id) && !refers_to_blob(output_tables@, id)
                    && !kept_elsewhere(live_tables@, input_table_ids@, id)) by {
                assert(before.contains(id) <==> (refers_to_blob(input_tables@.take(i as int), id) && !refers_to_blob(
                    output_tables@,
                    id,
                ) && !kept_elsewhere(live_tables@, input_table_ids@, id)));
                assert(refers_to_blob(t, id) <==> (refers_to_blob(input_tables@.take(i as int), id)
                    || blob_ids@.contains(id)));
            }
        }
        i = i + 1;
    }
    proof {
        assert(input_tables@.take(i as int) =~= input_tables@);
    }
    ids
}

/// The pending obsolete blob files that may be deleted now: none while a
/// snapshot is active, since a snapshot read may still reach them;
/// otherwise those the manifest no longer refers to, in the pending order.
/// A pending file that is still referenced stays on disk.
pub fn deletable_blob_files(active_snapshots: usize, pending_file_ids: &[u64], referenced_blob_ids: &[u64]) -> (r: Vec<u64>)
    ensures
        active_snapshots != 0 ==> r@.len() == 0,
        active_snapshots == 0 ==> r@ == pending_file_ids@.filter(|id: u64| !referenced_blob_ids@.contains(id)),
        forall|k: int| 0 <= k < r@.len() ==> !referenced_blob_ids@.contains(#[trigger] r@[k]),
{
    let mut ids: Vec<u64> = Vec::new();
    if active_snapshots != 0 {
        return ids;
    }
    let mut i: usize = 0;
    while i < pending_file_ids.len()
        invariant
            i <= pending_file_ids@.len(),
            ids@ == pending_file_ids@.take(i as int).filter(|id: u64| !referenced_blob_ids@.contains(id)),
            forall|k: int| 0 <= k < ids@.len() ==> !referenced_blob_ids@.contains(#[trigger] ids@[k]),
        decreases pending_file_ids@.len() - i,
    {
        let id = pending_file_ids[i];
        proof {
            reveal(Seq::filter);
            assert(pending_file_ids@.take(i + 1).drop_last() =~= pending_file_ids@.take(i as int));
            assert(pending_file_ids@.take(i + 1).last() == id);
        }
        if !contains_blob_id(referenced_blob_ids, id) {
            ids.push(id);
        }
        i = i + 1;
    }
    proof {
        assert(pending_file_ids@.take(i as int) =~= pending_file_ids@);
    }
    ids
}

/// The pending obsolete table files that may be deleted now: none while a
/// snapshot is active, all of them otherwise.
pub fn deletable_table_files(active_snapshots: usize, pending_table_ids: &[TableId]) -> (r: Vec<TableId>)
    ensures
        r@ == if active_snapshots != 0 {
            Seq::<TableId>::empty()
        } else {
            pending_table_ids@
        },
{
    let mut ids: Vec<TableId> = Vec::new();
    if active_snapshots != 0 {
        return ids;
    }
    let mut i: usize = 0;
    while i < pending_table_ids.len()
        invariant
            i <= pending_table_ids@.len(),
            ids@ == pending_table_ids@.take(i as int),
        decreases pending_table_ids@.len() - i,
    {
        ids.push(pending_table_ids[i]);
        proof {
            assert(pending_table_ids@.take(i + 1) =~= pending_table_ids@.take(i as int).push(pending_table_ids@[i as int]));
        }
        i = i + 1;
    }
    proof {
        assert(pending_table_ids@.take(i as int) =~= pending_table_ids@);
    }
    ids
}

} // verus!
