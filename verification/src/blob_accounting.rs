//! How many bytes of each blob file a compaction's input and output refer
//! to, and whether the compaction rewrites blob indexes.

use vstd::prelude::*;
use std::collections::BTreeMap;
use crate::blob::{TableEntry, ValueRef, ValueRefView};
use crate::lsm::compact::{entry_view, entry_views, EntryView};
use crate::lsm::output::{payload_view, payload_views, CompactionTablePayload, PayloadView};
use crate::options::BlobLevelMergePolicy;
use crate::stats::sat_add;
use crate::table::{TableBlobReference, TableProperties};

verus! {

broadcast use vstd::laws_cmp::group_laws_cmp, vstd::std_specs::btree::group_btree_axioms;

/// The blob file and the bytes of it that a record's value refers to.
pub open spec fn blob_ref_bytes(value: Option<ValueRefView>) -> Option<(u64, u64)> {
    match value {
        Some(ValueRefView::BlobIndex(index)) => Some((index.file_id, index.encoded_len)),
        Some(ValueRefView::Blob { file_id, len, .. }) => Some((file_id, len)),
        _ => None,
    }
}

/// Adds `bytes` to the count of `file_id`, saturating at `u64::MAX`.
pub open spec fn add_file_bytes(m: Map<u64, u64>, file_id: u64, bytes: u64) -> Map<u64, u64> {
    if m.contains_key(file_id) {
        m.insert(file_id, sat_add(m[file_id], bytes))
    } else {
        m.insert(file_id, bytes)
    }
}

/// `m` with the blob bytes of each record added, in order.
pub open spec fn records_blob_bytes(m: Map<u64, u64>, records: Seq<EntryView>) -> Map<u64, u64>
    decreases records.len(),
{
    if records.len() == 0 {
        m
    } else {
        let prev = records_blob_bytes(m, records.drop_last());
        match blob_ref_bytes(records.last().1) {
            Some((file_id, bytes)) => add_file_bytes(prev, file_id, bytes),
            None => prev,
        }
    }
}

/// Bytes of each blob file that the payloads' records refer to.
pub open spec fn payload_blob_bytes(payloads: Seq<PayloadView>) -> Map<u64, u64>
    decreases payloads.len(),
{
    if payloads.len() == 0 {
        Map::empty()
    } else {
        records_blob_bytes(payload_blob_bytes(payloads.drop_last()), payloads.last().point_records)
    }
}

/// `m` with the referenced bytes of each blob reference added, in order.
pub open spec fn references_blob_bytes(m: Map<u64, u64>, references: Seq<TableBlobReference>) -> Map<u64, u64>
    decreases references.len(),
{
    if references.len() == 0 {
        m
    } else {
        let r = references.last();
        add_file_bytes(references_blob_bytes(m, references.drop_last()), r.file_id, r.referenced_bytes)
    }
}

/// Bytes of each blob file that the input tables refer to.
pub open spec fn input_blob_bytes(tables: Seq<TableProperties>) -> Map<u64, u64>
    decreases tables.len(),
{
    if tables.len() == 0 {
        Map::empty()
    } else {
        references_blob_bytes(input_blob_bytes(tables.drop_last()), tables.last().blob_references@)
    }
}

/// Some record of the payloads refers to a blob file.
pub open spec fn has_blob_references(payloads: Seq<PayloadView>) -> bool {
    exists|i: int, j: int|
        0 <= i < payloads.len() && 0 <= j < payloads[i].point_records.len() && (#[trigger] blob_ref_bytes(
            payloads[i].point_records[j].1,
        )) is Some
}

/// The blob file and bytes a value refers to, if any.
pub fn blob_reference_bytes(value: Option<&ValueRef>) -> (r: Option<(u64, u64)>)
    ensures
        r == blob_ref_bytes(
            match value {
                Some(v) => Some(v@),
                None => None,
            },
        ),
{
    match value {
        Some(ValueRef::BlobIndex(index)) => Some((index.file_id, index.encoded_len)),
        Some(ValueRef::Blob { file_id, len, .. }) => Some((*file_id, *len)),
        Some(ValueRef::Inline(_)) => None,
        None => None,
    }
}

fn value_of(record: &TableEntry) -> (r: Option<&ValueRef>)
    ensures
        match r {
            Some(v) => entry_view(*record).1 == Some(v@),
            None => entry_view(*record).1 is None,
        },
{
    match &record.1 {
        Some(v) => Some(v),
        None => None,
    }
}

/// Whether some record of the payloads refers to a blob file.
pub fn payloads_have_blob_references(payloads: &[CompactionTablePayload]) -> (r: bool)
    ensures
        r == has_blob_references(payload_views(payloads@)),
{
    let ghost pv = payload_views(payloads@);
    let mut i: usize = 0;
    while i < payloads.len()
        invariant
            i <= payloads@.len(),
            pv == payload_views(payloads@),
            forall|a: int, b: int|
                0 <= a < i && 0 <= b < pv[a].point_records.len() ==> (#[trigger] blob_ref_bytes(
                    pv[a].point_records[b].1,
                )) is None,
        decreases payloads@.len() - i,
    {
        let records = &payloads[i].point_records;
        let mut j: usize = 0;
        while j < records.len()
            invariant
                i < payloads@.len(),
                j <= records@.len(),
                pv == payload_views(payloads@),
                records == payloads@[i as int].point_records,
                forall|b: int| 0 <= b < j ==> (#[trigger] blob_ref_bytes(pv[i as int].point_records[b].1)) is None,
            decreases records@.len() - j,
        {
            proof {
                assert(pv[i as int].point_records[j as int] == entry_view(records@[j as int]));
            }
            if blob_reference_bytes(value_of(&records[j])).is_some() {
                return true;
            }
            j = j + 1;
        }
        i = i + 1;
    }
    false
}

fn add_bytes(bytes_by_file: &mut BTreeMap<u64, u64>, file_id: u64, bytes: u64)
    ensures
        final(bytes_by_file)@ == add_file_bytes(old(bytes_by_file)@, file_id, bytes),
{
    let current = match bytes_by_file.get(&file_id) {
        Some(current) => Some(*current),
        None => None,
    };
    match current {
        Some(current) => {
            bytes_by_file.insert(file_id, current.saturating_add(bytes));
        },
        None => {
            bytes_by_file.insert(file_id, bytes);
        },
    }
}

/// Bytes of each blob file that the payloads' records refer to.
pub fn payload_blob_bytes_by_file(payloads: &[CompactionTablePayload]) -> (r: BTreeMap<u64, u64>)
    ensures
        r@ == payload_blob_bytes(payload_views(payloads@)),
{
    let ghost pv = payload_views(payloads@);
    let mut bytes_by_file: BTreeMap<u64, u64> = BTreeMap::new();
    let mut i: usize = 0;
    while i < payloads.len()
        invariant
            i <= payloads@.len(),
            pv == payload_views(payloads@),
            bytes_by_file@ == payload_blob_bytes(pv.take(i as int)),
        decreases payloads@.len() - i,
    {
        let records = &payloads[i].point_records;
        let ghost start = bytes_by_file@;
        let ghost rv = pv[i as int].point_records;
        let mut j: usize = 0;
        while j < records.len()
            invariant
                i < payloads@.len(),
                j <= records@.len(),
                pv == payload_views(payloads@),
                records == payloads@[i as int].point_records,
                rv == entry_views(records@),
                bytes_by_file@ == records_blob_bytes(start, rv.take(j as int)),
            decreases records@.len() - j,
        {
            proof {
                assert(rv.take(j + 1).drop_last() =~= rv.take(j as int));
                assert(rv.take(j + 1).last() == entry_view(records@[j as int]));
            }
            match blob_reference_bytes(value_of(&records[j])) {
                Some((file_id, referenced_bytes)) => add_bytes(&mut bytes_by_file, file_id, referenced_bytes),
                None => {},
            }
            j = j + 1;
        }
        proof {
            assert(rv.take(j as int) =~= rv);
            assert(pv.take(i + 1).drop_last() =~= pv.take(i as int));
            assert(pv.take(i + 1).last() == pv[i as int]);
        }
        i = i + 1;
    }
    proof {
        assert(pv.take(i as int) =~= pv);
    }
    bytes_by_file
}

/// Bytes of each blob file that the input tables refer to.
pub fn input_blob_bytes_by_file(input_tables: &[TableProperties]) -> (r: BTreeMap<u64, u64>)
    ensures
        r@ == input_blob_bytes(input_tables@),
{
    let mut bytes_by_file: BTreeMap<u64, u64> = BTreeMap::new();
    let mut i: usize = 0;
    while i < input_tables.len()
        invariant
            i <= input_tables@.len(),
            bytes_by_file@ == input_blob_bytes(input_tables@.take(i as int)),
        decreases input_tables@.len() - i,
    {
        let references = input_tables[i].blob_references();
        let ghost start = bytes_by_file@;
        let mut j: usize = 0;
        while j < references.len()
            invariant
                i < input_tables@.len(),
                j <= references@.len(),
                references@ == input_tables@[i as int].blob_references@,
                bytes_by_file@ == references_blob_bytes(start, references@.take(j as int)),
            decreases references@.len() - j,
        {
            proof {
                assert(references@.take(j + 1).drop_last() =~= references@.take(j as int));
            }
            add_bytes(&mut bytes_by_file, references[j].file_id, references[j].referenced_bytes);
            j = j + 1;
        }
        proof {
            assert(references@.take(j as int) =~= references@);
            assert(input_tables@.take(i + 1).drop_last() =~= input_tables@.take(i as int));
        }
        i = i + 1;
    }
    proof {
        assert(input_tables@.take(i as int) =~= input_tables@);
    }
    bytes_by_file
}

/// Bytes of a file in a map of bytes by file, 0 where it is absent.
pub open spec fn bytes_of(m: Map<u64, u64>, file_id: u64) -> u64 {
    if m.contains_key(file_id) {
        m[file_id]
    } else {
        0
    }
}

/// Whether a compaction rewrites the blob indexes of the records it keeps:
/// never when disabled; when the output refers to any blob file under
/// `Always`; under `Auto`, when the output refers to several blob files, or
/// to one blob file of which the input referred to more bytes than the
/// output does.
pub open spec fn rewrite_blob_indexes(input: Map<u64, u64>, output: Map<u64, u64>, has_references: bool, policy: BlobLevelMergePolicy) -> bool {
    match policy {
        BlobLevelMergePolicy::Disabled => false,
        BlobLevelMergePolicy::Always => has_references,
        BlobLevelMergePolicy::Auto => output.len() > 1 || (output.len() == 1 && exists|file_id: u64|
            #[trigger] input.contains_key(file_id) && input[file_id] > bytes_of(output, file_id)),
    }
}

/// Whether the compaction of `input_tables` into `payloads` rewrites blob
/// indexes under `policy`.
pub fn should_rewrite_blob_indexes_for_compaction(input_tables: &[TableProperties], payloads: &[CompactionTablePayload], policy: BlobLevelMergePolicy) -> (r: bool)
    ensures
        r == rewrite_blob_indexes(
            input_blob_bytes(input_tables@),
            payload_blob_bytes(payload_views(payloads@)),
            has_blob_references(payload_views(payloads@)),
            policy,
        ),
{
    match policy {
        BlobLevelMergePolicy::Disabled => false,
        BlobLevelMergePolicy::Always => payloads_have_blob_references(payloads),
        BlobLevelMergePolicy::Auto => {
            let output_bytes = payload_blob_bytes_by_file(payloads);
            if output_bytes.is_empty() {
                return false;
            }
            if output_bytes.len() > 1 {
                return true;
            }
            let input_bytes = input_blob_bytes_by_file(input_tables);
            let ghost input = input_bytes@;
            let ghost output = output_bytes@;
            proof {
                assert(output.dom().finite());
                if output.len() == 0 {
                    output.dom().lemma_len0_is_empty();
                    assert(output.dom() =~= Set::<u64>::empty());
                    assert(output =~= Map::<u64, u64>::empty());
                }
                assert(output.len() == 1);
            }
            let mut i: usize = 0;
            while i < input_tables.len()
                invariant
                    i <= input_tables@.len(),
                    input == input_bytes@,
                    output == output_bytes@,
                    output.len() == 1,
                    output == payload_blob_bytes(payload_views(payloads@)),
                    policy == BlobLevelMergePolicy::Auto,
                    input == input_blob_bytes(input_tables@),
                    forall|a: int, b: int|
                        0 <= a < i && 0 <= b < input_tables@[a].blob_references@.len() ==> !(input[(
                            #[trigger] input_tables@[a].blob_references@[b]).file_id] > bytes_of(
                            output,
                            input_tables@[a].blob_references@[b].file_id,
                        )),
                decreases input_tables@.len() - i,
            {
                let references = input_tables[i].blob_references();
                let mut j: usize = 0;
                while j < references.len()
                    invariant
                        i < input_tables@.len(),
                        j <= references@.len(),
                        references@ == input_tables@[i as int].blob_references@,
                        input == input_bytes@,
                        output == output_bytes@,
                        output.len() == 1,
                        output == payload_blob_bytes(payload_views(payloads@)),
                        policy == BlobLevelMergePolicy::Auto,
                        input == input_blob_bytes(input_tables@),
                        forall|b: int|
                            0 <= b < j ==> !(input[(#[trigger] references@[b]).file_id] > bytes_of(output, references@[b].file_id)),
                    decreases references@.len() - j,
                {
                    let file_id = references[j].file_id;
                    proof {
                        lemma_input_has_reference(input_tables@, i as int, j as int);
                    }
                    let input_file_bytes = match input_bytes.get(&file_id) {
                        Some(bytes) => *bytes,
                        None => 0,
                    };
                    let output_file_bytes = match output_bytes.get(&file_id) {
                        Some(bytes) => *bytes,
                        None => 0,
                    };
                    if input_file_bytes > output_file_bytes {
                        proof {
                            assert(input.contains_key(file_id) && input[file_id] > bytes_of(output, file_id));
                            assert(exists|f: u64| #[trigger] input.contains_key(f) && input[f] > bytes_of(output, f));
                        }
                        return true;
                    }
                    j = j + 1;
                }
                i = i + 1;
            }
            proof {
                assert forall|file_id: u64| input.contains_key(file_id) implies !(input[file_id] > bytes_of(output, file_id)) by {
                    let (a, b) = lemma_input_key_has_reference(input_tables@, file_id);
                    assert(input_tables@[a].blob_references@[b].file_id == file_id);
                }
            }
            false
        },
    }
}

proof fn lemma_references_keys(m: Map<u64, u64>, references: Seq<TableBlobReference>, j: int)
    requires
        0 <= j < references.len(),
    ensures
        references_blob_bytes(m, references).contains_key(references[j].file_id),
    decreases references.len(),
{
    if j < references.len() - 1 {
        lemma_references_keys(m, references.drop_last(), j);
    }
}

proof fn lemma_references_keep_keys(m: Map<u64, u64>, references: Seq<TableBlobReference>, file_id: u64)
    requires
        m.contains_key(file_id),
    ensures
        references_blob_bytes(m, references).contains_key(file_id),
    decreases references.len(),
{
    if references.len() > 0 {
        lemma_references_keep_keys(m, references.drop_last(), file_id);
    }
}

proof fn lemma_input_has_reference(tables: Seq<TableProperties>, i: int, j: int)
    requires
        0 <= i < tables.len(),
        0 <= j < tables[i].blob_references@.len(),
    ensures
        input_blob_bytes(tables).contains_key(tables[i].blob_references@[j].file_id),
    decreases tables.len(),
{
    if i < tables.len() - 1 {
        lemma_input_has_reference(tables.drop_last(), i, j);
        lemma_references_keep_keys(
            input_blob_bytes(tables.drop_last()),
            tables.last().blob_references@,
            tables[i].blob_references@[j].file_id,
        );
    } else {
        lemma_references_keys(input_blob_bytes(tables.drop_last()), tables.last().blob_references@, j);
    }
}

proof fn lemma_references_key_source(m: Map<u64, u64>, references: Seq<TableBlobReference>, file_id: u64) -> (j: int)
    requires
        references_blob_bytes(m, references).contains_key(file_id),
        !m.contains_key(file_id),
    ensures
        0 <= j < references.len(),
        references[j].file_id == file_id,
    decreases references.len(),
{
    let prev = references_blob_bytes(m, references.drop_last());
    if prev.contains_key(file_id) {
        lemma_references_key_source(m, references.drop_last(), file_id)
    } else {
        (references.len() - 1) as int
    }
}

proof fn lemma_input_key_has_reference(tables: Seq<TableProperties>, file_id: u64) -> (ab: (int, int))
    requires
        input_blob_bytes(tables).contains_key(file_id),
    ensures
        0 <= ab.0 < tables.len(),
        0 <= ab.1 < tables[ab.0].blob_references@.len(),
        tables[ab.0].blob_references@[ab.1].file_id == file_id,
    decreases tables.len(),
{
    let prev = input_blob_bytes(tables.drop_last());
    if prev.contains_key(file_id) {
        let (a, b) = lemma_input_key_has_reference(tables.drop_last(), file_id);
        (a, b)
    } else {
        let b = lemma_references_key_source(prev, tables.last().blob_references@, file_id);
        ((tables.len() - 1) as int, b)
    }
}

} // verus!
