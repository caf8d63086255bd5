//! Searches over sorted arrays.

use vstd::prelude::*;
use crate::options::IndexSearchPolicy;

verus! {

pub open spec fn sorted_u64(items: Seq<u64>) -> bool {
    forall|i: int, j: int| 0 <= i <= j < items.len() ==> items[i] <= items[j]
}

/// Index of the first item at or above `target`, or `None` when every item
/// is below it.
#[must_use]
pub fn seek_ge(items: &[u64], target: u64) -> (r: Option<usize>)
    requires
        sorted_u64(items@),
    ensures
        match r {
            Some(i) => i < items@.len() && items@[i as int] >= target && forall|j: int|
                0 <= j < i ==> items@[j] < target,
            None => forall|j: int| 0 <= j < items@.len() ==> items@[j] < target,
        },
{
    let mut left: usize = 0;
    let mut right: usize = items.len();
    while left < right
        invariant
            left <= right <= items@.len(),
            sorted_u64(items@),
            forall|j: int| 0 <= j < left ==> items@[j] < target,
            forall|j: int| right <= j < items@.len() ==> items@[j] >= target,
        decreases right - left,
    {
        let middle = left + (right - left) / 2;
        if items[middle] < target {
            left = middle + 1;
        } else {
            right = middle;
        }
    }
    if left < items.len() {
        Some(left)
    } else {
        None
    }
}

/// Number of leading items at or below `target`.
fn upper_partition(items: &[u64], target: u64) -> (r: usize)
    requires
        sorted_u64(items@),
    ensures
        r <= items@.len(),
        forall|j: int| 0 <= j < r ==> items@[j] <= target,
        forall|j: int| r <= j < items@.len() ==> items@[j] > target,
{
    let mut left: usize = 0;
    let mut right: usize = items.len();
    while left < right
        invariant
            left <= right <= items@.len(),
            sorted_u64(items@),
            forall|j: int| 0 <= j < left ==> items@[j] <= target,
            forall|j: int| right <= j < items@.len() ==> items@[j] > target,
        decreases right - left,
    {
        let middle = left + (right - left) / 2;
        if items[middle] <= target {
            left = middle + 1;
        } else {
            right = middle;
        }
    }
    left
}

/// Index of the first item above `target`, or `None` when there is none.
#[must_use]
pub fn seek_gt(items: &[u64], target: u64) -> (r: Option<usize>)
    requires
        sorted_u64(items@),
    ensures
        match r {
            Some(i) => i < items@.len() && items@[i as int] > target && forall|j: int|
                0 <= j < i ==> items@[j] <= target,
            None => forall|j: int| 0 <= j < items@.len() ==> items@[j] <= target,
        },
{
    let index = upper_partition(items, target);
    if index < items.len() {
        Some(index)
    } else {
        None
    }
}

/// Index of the last item at or below `target`, or `None` when there is
/// none.
#[must_use]
pub fn seek_le(items: &[u64], target: u64) -> (r: Option<usize>)
    requires
        sorted_u64(items@),
    ensures
        match r {
            Some(i) => i < items@.len() && items@[i as int] <= target && forall|j: int|
                i < j < items@.len() ==> items@[j] > target,
            None => forall|j: int| 0 <= j < items@.len() ==> items@[j] > target,
        },
{
    let index = upper_partition(items, target);
    if index == 0 {
        None
    } else {
        Some(index - 1)
    }
}

/// From position `current`, the first position whose item is at or above
/// `target`; `None` when `current` is past the end or no such item follows.
#[must_use]
pub fn advance_to(items: &[u64], current: usize, target: u64) -> (r: Option<usize>)
    requires
        sorted_u64(items@),
    ensures
        match r {
            Some(i) => current <= i < items@.len() && items@[i as int] >= target && forall|
                j: int,
            |
                current <= j < i ==> items@[j] < target,
            None => current >= items@.len() || forall|j: int|
                current <= j < items@.len() ==> items@[j] < target,
        },
{
    if current >= items.len() {
        return None;
    }
    if items[current] >= target {
        return Some(current);
    }
    let rest = vstd::slice::slice_subrange(items, current + 1, items.len());
    proof {
        assert forall|i: int, j: int| 0 <= i <= j < rest@.len() implies rest@[i] <= rest@[j] by {
            assert(rest@[i] == items@[current + 1 + i]);
            assert(rest@[j] == items@[current + 1 + j]);
        }
    }
    match seek_ge(rest, target) {
        Some(index) => {
            proof {
                assert forall|j: int| current <= j < current + 1 + index implies items@[j] < target by {
                    if j > current {
                        assert(items@[j] == rest@[j - current - 1]);
                    }
                }
            }
            Some(current + 1 + index)
        },
        None => {
            proof {
                assert forall|j: int| current <= j < items@.len() implies items@[j] < target by {
                    if j > current {
                        assert(items@[j] == rest@[j - current - 1]);
                    }
                }
            }
            None
        },
    }
}

/// The predicate is known to have returned `true` at `index`.
pub open spec fn holds_at<F: Fn(usize) -> bool>(predicate: F, index: usize) -> bool {
    call_ensures(predicate, (index,), true)
}

/// The predicate is known to have returned `false` at `index`.
pub open spec fn fails_at<F: Fn(usize) -> bool>(predicate: F, index: usize) -> bool {
    call_ensures(predicate, (index,), false)
}

/// The predicate can be called on every index below `len`, gives one answer
/// per index, and once false stays false for the rest of the indexes.
pub open spec fn partitioned<F: Fn(usize) -> bool>(predicate: F, len: usize) -> bool {
    &&& forall|i: usize| i < len ==> call_requires(predicate, (i,))
    &&& forall|i: usize| i < len ==> !(#[trigger] holds_at(predicate, i) && fails_at(predicate, i))
    &&& forall|i: usize, j: usize|
        i <= j < len && #[trigger] fails_at(predicate, i) ==> !#[trigger] holds_at(predicate, j)
}

/// Meaning of a partition point `r`: the predicate does not fail below `r`,
/// and it fails at `r` when `r` is inside the array.
pub open spec fn is_partition_point<F: Fn(usize) -> bool>(predicate: F, len: usize, r: usize) -> bool {
    &&& r <= len
    &&& forall|j: usize| j < r ==> !#[trigger] fails_at(predicate, j)
    &&& r < len ==> fails_at(predicate, r)
}

/// The first index in `0..len` where the predicate is false, found with the
/// search the policy selects. Every policy gives the same index.
pub fn partition_point_by<F: Fn(usize) -> bool>(len: usize, policy: IndexSearchPolicy, predicate: F) -> (r: usize)
    requires
        partitioned(predicate, len),
    ensures
        is_partition_point(predicate, len, r),
{
    match policy {
        IndexSearchPolicy::Linear => linear_partition_point(len, predicate),
        IndexSearchPolicy::Auto => {
            if len <= 8 {
                linear_partition_point(len, predicate)
            } else {
                binary_partition_point(len, predicate)
            }
        },
        _ => binary_partition_point(len, predicate),
    }
}

fn linear_partition_point<F: Fn(usize) -> bool>(len: usize, predicate: F) -> (r: usize)
    requires
        partitioned(predicate, len),
    ensures
        is_partition_point(predicate, len, r),
{
    let mut index: usize = 0;
    while index < len
        invariant
            index <= len,
            partitioned(predicate, len),
            forall|j: usize| j < index ==> !#[trigger] fails_at(predicate, j),
        decreases len - index,
    {
        if !predicate(index) {
            return index;
        }
        proof {
            assert(holds_at(predicate, index));
        }
        index = index + 1;
    }
    len
}

fn binary_partition_point<F: Fn(usize) -> bool>(len: usize, predicate: F) -> (r: usize)
    requires
        partitioned(predicate, len),
    ensures
        is_partition_point(predicate, len, r),
{
    let mut left: usize = 0;
    let mut right: usize = len;
    while left < right
        invariant
            left <= right <= len,
            partitioned(predicate, len),
            forall|j: usize| j < left ==> !#[trigger] fails_at(predicate, j),
            right < len ==> fails_at(predicate, right),
        decreases right - left,
    {
        let middle = left + (right - left) / 2;
        if predicate(middle) {
            proof {
                assert forall|j: usize| j < middle + 1 implies !#[trigger] fails_at(predicate, j) by {
                    if j < left {
                    } else if fails_at(predicate, j) {
                        assert(holds_at(predicate, middle));
                    }
                }
            }
            left = middle + 1;
        } else {
            right = middle;
        }
    }
    left
}

} // verus!
