//! The storage files that a manifest refers to.

use vstd::prelude::*;
use crate::compaction_cleanup::{contains_blob_id, insert_blob_id, strictly_increasing};
use crate::manifest::ManifestState;
use crate::table::{TableId, TableProperties};

verus! {

/// Some table of some keyspace has the id `id`.
pub open spec fn names_table(tables: Seq<(String, Vec<TableProperties>)>, id: u64) -> bool {
    exists|k: int, j: int|
        0 <= k < tables.len() && 0 <= j < tables[k].1@.len() && (#[trigger] tables[k].1@[j]).id.0 == id
}

/// Some table of some keyspace refers to blob file `id`.
pub open spec fn names_blob(tables: Seq<(String, Vec<TableProperties>)>, id: u64) -> bool {
    exists|k: int, j: int|
        0 <= k < tables.len() && 0 <= j < tables[k].1@.len() && (#[trigger] tables[k].1@[j]).blob_file_ids@.contains(id)
}

/// Some of the first `j` tables has the id `id`.
pub open spec fn id_among(list: Seq<TableProperties>, j: int, id: u64) -> bool {
    exists|m: int| 0 <= m < j && (#[trigger] list[m]).id.0 == id
}

/// Some of the first `j` tables refers to blob file `id`.
pub open spec fn blob_among(list: Seq<TableProperties>, j: int, id: u64) -> bool {
    exists|m: int| 0 <= m < j && (#[trigger] list[m]).blob_file_ids@.contains(id)
}

proof fn lemma_among_step(list: Seq<TableProperties>, j: int, x: u64)
    requires
        0 <= j < list.len(),
    ensures
        id_among(list, j + 1, x) <==> (id_among(list, j, x) || list[j].id.0 == x),
        blob_among(list, j + 1, x) <==> (blob_among(list, j, x) || list[j].blob_file_ids@.contains(x)),
{
    if id_among(list, j + 1, x) {
        let m = choose|m: int| 0 <= m < j + 1 && (#[trigger] list[m]).id.0 == x;
        if m < j {
            assert(id_among(list, j, x));
        }
    }
    if blob_among(list, j + 1, x) {
        let m = choose|m: int| 0 <= m < j + 1 && (#[trigger] list[m]).blob_file_ids@.contains(x);
        if m < j {
            assert(blob_among(list, j, x));
        }
    }
}

/// Some table id of `ids` is `id`.
pub open spec fn has_table_id(ids: Seq<TableId>, id: u64) -> bool {
    exists|k: int| 0 <= k < ids.len() && (#[trigger] ids[k]).0 == id
}

/// Adds each id of `ids` that is not there yet.
fn add_ids(out: &mut Vec<u64>, ids: &[u64])
    requires
        strictly_increasing(old(out)@),
    ensures
        strictly_increasing(final(out)@),
        forall|x: u64| final(out)@.contains(x) <==> (old(out)@.contains(x) || ids@.contains(x)),
{
    let ghost start = out@;
    let mut i: usize = 0;
    while i < ids.len()
        invariant
            i <= ids@.len(),
            strictly_increasing(out@),
            forall|x: u64| #[trigger] out@.contains(x) <==> (start.contains(x) || ids@.take(i as int).contains(x)),
        decreases ids@.len() - i,
    {
        let id = ids[i];
        let ghost prev = out@;
        let present = contains_blob_id(out.as_slice(), id);
        if !present {
            insert_blob_id(out, id);
        }
        proof {
            assert forall|x: u64| out@.contains(x) <==> (prev.contains(x) || x == id) by {}
            assert forall|x: u64| ids@.take(i + 1).contains(x) <==> (ids@.take(i as int).contains(x) || x == id) by {
                if ids@.take(i + 1).contains(x) {
                    let k = choose|k: int| 0 <= k < i + 1 && #[trigger] ids@.take(i + 1)[k] == x;
                    if k < i {
                        assert(ids@.take(i as int)[k] == x);
                    }
                }
                if ids@.take(i as int).contains(x) {
                    let k = choose|k: int| 0 <= k < i && #[trigger] ids@.take(i as int)[k] == x;
                    assert(ids@.take(i + 1)[k] == x);
                }
                if x == id {
                    assert(ids@.take(i + 1)[i as int] == x);
                }
            }
            assert forall|x: u64| out@.contains(x) <==> (start.contains(x) || ids@.take(i + 1).contains(x)) by {
                assert(prev.contains(x) <==> (start.contains(x) || ids@.take(i as int).contains(x)));
                assert(ids@.take(i + 1).contains(x) <==> (ids@.take(i as int).contains(x) || x == id));
            }
        }
        i = i + 1;
    }
    proof {
        assert(ids@.take(i as int) =~= ids@);
    }
}

/// The ids of the tables and of the blob files that a manifest refers to,
/// each in ascending order without repeats.
pub fn referenced_ids(state: &ManifestState) -> (r: (Vec<TableId>, Vec<u64>))
    ensures
        forall|a: int, b: int| 0 <= a < b < r.0@.len() ==> (#[trigger] r.0@[a]).0 < (#[trigger] r.0@[b]).0,
        forall|id: u64| #[trigger] has_table_id(r.0@, id) <==> names_table(state.spec_tables(), id),
        strictly_increasing(r.1@),
        forall|id: u64| r.1@.contains(id) <==> names_blob(state.spec_tables(), id),
{
    let tables = state.tables();
    let mut table_ids: Vec<u64> = Vec::new();
    let mut blob_ids: Vec<u64> = Vec::new();
    let mut k: usize = 0;
    while k < tables.len()
        invariant
            k <= tables@.len(),
            tables@ == state.spec_tables(),
            strictly_increasing(table_ids@),
            strictly_increasing(blob_ids@),
            forall|id: u64| #[trigger] table_ids@.contains(id) <==> names_table(tables@.take(k as int), id),
            forall|id: u64| #[trigger] blob_ids@.contains(id) <==> names_blob(tables@.take(k as int), id),
        decreases tables@.len() - k,
    {
        let list = tables[k].1.as_slice();
        let ghost t0 = table_ids@;
        let ghost b0 = blob_ids@;
        let mut j: usize = 0;
        while j < list.len()
            invariant
                k < tables@.len(),
                list@ == tables@[k as int].1@,
                j <= list@.len(),
                strictly_increasing(table_ids@),
                strictly_increasing(blob_ids@),
                forall|id: u64| #[trigger] table_ids@.contains(id) <==> (t0.contains(id) || id_among(list@, j as int, id)),
                forall|id: u64| #[trigger] blob_ids@.contains(id) <==> (b0.contains(id) || blob_among(list@, j as int, id)),
            decreases list@.len() - j,
        {
            let id = list[j].id.0;
            let ghost prev_tables = table_ids@;
            let present = contains_blob_id(table_ids.as_slice(), id);
            if !present {
                insert_blob_id(&mut table_ids, id);
            }
            let ghost prev_blobs = blob_ids@;
            let blob_list = list[j].blob_file_ids.as_slice();
            add_ids(&mut blob_ids, blob_list);
            proof {
                assert forall|x: u64| #[trigger] table_ids@.contains(x) <==> (t0.contains(x) || id_among(list@, j + 1, x)) by {
                    lemma_among_step(list@, j as int, x);
                    assert(prev_tables.contains(x) <==> (t0.contains(x) || id_among(list@, j as int, x)));
                }
                assert forall|x: u64| #[trigger] blob_ids@.contains(x) <==> (b0.contains(x) || blob_among(list@, j + 1, x)) by {
                    lemma_among_step(list@, j as int, x);
                    assert(prev_blobs.contains(x) <==> (b0.contains(x) || blob_among(list@, j as int, x)));
                    assert(blob_list@ == list@[j as int].blob_file_ids@);
                }
            }
            j = j + 1;
        }
        proof {
            let t = tables@.take(k + 1);
            assert forall|x: u64| table_ids@.contains(x) <==> names_table(t, x) by {
                if names_table(t, x) {
                    let (a, b) = choose|a: int, b: int| 0 <= a < t.len() && 0 <= b < t[a].1@.len() && (#[trigger] t[a].1@[b]).id.0 == x;
                    if a < k {
                        assert(tables@.take(k as int)[a] == t[a]);
                    } else {
                        assert(list@[b] == t[a].1@[b]);
                        assert(id_among(list@, j as int, x));
                    }
                }
                if names_table(tables@.take(k as int), x) {
                    let (a, b) = choose|a: int, b: int| 0 <= a < k && 0 <= b < tables@.take(k as int)[a].1@.len() && (#[trigger] tables@.take(k as int)[a].1@[b]).id.0 == x;
                    assert(t[a] == tables@.take(k as int)[a]);
                }
                assert(table_ids@.contains(x) <==> (t0.contains(x) || id_among(list@, j as int, x)));
                assert(t0.contains(x) <==> names_table(tables@.take(k as int), x));
                if id_among(list@, j as int, x) {
                    let m = choose|m: int| 0 <= m < j && (#[trigger] list@[m]).id.0 == x;
                    assert(t[k as int].1@[m] == list@[m]);
                }
            }
            assert forall|x: u64| blob_ids@.contains(x) <==> names_blob(t, x) by {
                if names_blob(t, x) {
                    let (a, b) = choose|a: int, b: int| 0 <= a < t.len() && 0 <= b < t[a].1@.len() && (#[trigger] t[a].1@[b]).blob_file_ids@.contains(x);
                    if a < k {
                        assert(tables@.take(k as int)[a] == t[a]);
                    } else {
                        assert(list@[b] == t[a].1@[b]);
                        assert(blob_among(list@, j as int, x));
                    }
                }
                if names_blob(tables@.take(k as int), x) {
                    let (a, b) = choose|a: int, b: int| 0 <= a < k && 0 <= b < tables@.take(k as int)[a].1@.len() && (#[trigger] tables@.take(k as int)[a].1@[b]).blob_file_ids@.contains(x);
                    assert(t[a] == tables@.take(k as int)[a]);
                }
                assert(blob_ids@.contains(x) <==> (b0.contains(x) || blob_among(list@, j as int, x)));
                assert(b0.contains(x) <==> names_blob(tables@.take(k as int), x));
                if blob_among(list@, j as int, x) {
                    let m = choose|m: int| 0 <= m < j && (#[trigger] list@[m]).blob_file_ids@.contains(x);
                    assert(t[k as int].1@[m] == list@[m]);
                }
            }
        }
        k = k + 1;
    }
    proof {
        assert(tables@.take(k as int) =~= tables@);
    }
    let mut ids: Vec<TableId> = Vec::new();
    let mut i: usize = 0;
    while i < table_ids.len()
        invariant
            i <= table_ids@.len(),
            ids@.len() == i,
            forall|m: int| 0 <= m < i ==> (#[trigger] ids@[m]).0 == table_ids@[m],
            forall|x: u64| #[trigger] table_ids@.contains(x) <==> names_table(state.spec_tables(), x),
            strictly_increasing(table_ids@),
        decreases table_ids@.len() - i,
    {
        ids.push(TableId(table_ids[i]));
        i = i + 1;
    }
    proof {
        assert forall|x: u64| (exists|m: int| 0 <= m < ids@.len() && (#[trigger] ids@[m]).0 == x) <==> table_ids@.contains(x) by {
            if table_ids@.contains(x) {
                let m = choose|m: int| 0 <= m < table_ids@.len() && table_ids@[m] == x;
                assert(ids@[m].0 == x);
            }
            if exists|m: int| 0 <= m < ids@.len() && (#[trigger] ids@[m]).0 == x {
                let m = choose|m: int| 0 <= m < ids@.len() && (#[trigger] ids@[m]).0 == x;
                assert(table_ids@[m] == x);
            }
        }
        assert forall|x: u64| #[trigger] has_table_id(ids@, x) <==> names_table(state.spec_tables(), x) by {
            assert(table_ids@.contains(x) <==> names_table(state.spec_tables(), x));
        }
        assert forall|a: int, b: int| 0 <= a < b < ids@.len() implies (#[trigger] ids@[a]).0 < (#[trigger] ids@[b]).0 by {
            assert(table_ids@[a] < table_ids@[b]);
        }
    }
    (ids, blob_ids)
}

} // verus!
