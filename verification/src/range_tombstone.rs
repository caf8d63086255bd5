//! Key-range predicates and the sorted index of range tombstones.

use vstd::prelude::*;
use crate::bytes::{
    bytes_le, bytes_lt, bytes_order, compare_bytes, lemma_bytes_order_properties,
    lemma_bytes_order_trans, Order,
};
use crate::types::{bound_view, clone_bound, Bound, KeyRange, SpecBound};

verus! {

/// `key` lies before the start bound.
pub open spec fn key_before_start(key: Seq<u8>, start: SpecBound) -> bool {
    match start {
        SpecBound::Included(s) => bytes_lt(key, s),
        SpecBound::Excluded(s) => bytes_le(key, s),
        SpecBound::Unbounded => false,
    }
}

/// `key` lies after the end bound.
pub open spec fn key_after_end(key: Seq<u8>, end: SpecBound) -> bool {
    match end {
        SpecBound::Included(e) => bytes_lt(e, key),
        SpecBound::Excluded(e) => bytes_le(e, key),
        SpecBound::Unbounded => false,
    }
}

/// `key` lies inside `range`.
pub open spec fn key_in_range(key: Seq<u8>, range: KeyRange) -> bool {
    !key_before_start(key, range.start_view()) && !key_after_end(key, range.end_view())
}

/// The end bound closes before the start bound opens.
pub open spec fn ends_before_start(end: SpecBound, start: SpecBound) -> bool {
    match (end, start) {
        (SpecBound::Unbounded, _) => false,
        (_, SpecBound::Unbounded) => false,
        (SpecBound::Excluded(e), SpecBound::Included(s)) => bytes_le(e, s),
        (SpecBound::Excluded(e), SpecBound::Excluded(s)) => bytes_le(e, s),
        (SpecBound::Included(e), SpecBound::Included(s)) => bytes_lt(e, s),
        (SpecBound::Included(e), SpecBound::Excluded(s)) => bytes_le(e, s),
    }
}

/// Neither range ends before the other starts.
pub open spec fn spec_ranges_overlap(left: KeyRange, right: KeyRange) -> bool {
    !ends_before_start(left.end_view(), right.start_view()) && !ends_before_start(
        right.end_view(),
        left.start_view(),
    )
}

/// Order of start bounds as -1, 0 or 1: unbounded first, then by key, an
/// included key before the excluded same key.
pub open spec fn start_order(a: SpecBound, b: SpecBound) -> int {
    match (a, b) {
        (SpecBound::Unbounded, SpecBound::Unbounded) => 0,
        (SpecBound::Unbounded, _) => -1,
        (_, SpecBound::Unbounded) => 1,
        (SpecBound::Included(x), SpecBound::Included(y)) => bytes_order(x, y),
        (SpecBound::Excluded(x), SpecBound::Excluded(y)) => bytes_order(x, y),
        (SpecBound::Included(x), SpecBound::Excluded(y)) => if bytes_order(x, y) == 0 {
            -1
        } else {
            bytes_order(x, y)
        },
        (SpecBound::Excluded(x), SpecBound::Included(y)) => if bytes_order(x, y) == 0 {
            1
        } else {
            bytes_order(x, y)
        },
    }
}

/// Order of end bounds as -1, 0 or 1: by key, an excluded key before the
/// included same key, unbounded last.
pub open spec fn end_order(a: SpecBound, b: SpecBound) -> int {
    match (a, b) {
        (SpecBound::Unbounded, SpecBound::Unbounded) => 0,
        (SpecBound::Unbounded, _) => 1,
        (_, SpecBound::Unbounded) => -1,
        (SpecBound::Included(x), SpecBound::Included(y)) => bytes_order(x, y),
        (SpecBound::Excluded(x), SpecBound::Excluded(y)) => bytes_order(x, y),
        (SpecBound::Excluded(x), SpecBound::Included(y)) => if bytes_order(x, y) == 0 {
            -1
        } else {
            bytes_order(x, y)
        },
        (SpecBound::Included(x), SpecBound::Excluded(y)) => if bytes_order(x, y) == 0 {
            1
        } else {
            bytes_order(x, y)
        },
    }
}

/// Order of ranges: by start bound, then by end bound.
pub open spec fn range_order(a: KeyRange, b: KeyRange) -> int {
    let s = start_order(a.start_view(), b.start_view());
    if s != 0 {
        s
    } else {
        end_order(a.end_view(), b.end_view())
    }
}

/// A tombstone whose start bound lets it reach `key`.
pub open spec fn start_can_cover(start: SpecBound, key: Seq<u8>) -> bool {
    match start {
        SpecBound::Unbounded => true,
        SpecBound::Included(s) => bytes_le(s, key),
        SpecBound::Excluded(s) => bytes_lt(s, key),
    }
}

proof fn lemma_bytes_facts(a: Seq<u8>, b: Seq<u8>, c: Seq<u8>)
    ensures
        -1 <= bytes_order(a, b) <= 1,
        bytes_order(a, b) == -bytes_order(b, a),
        bytes_order(a, b) == 0 <==> a == b,
        bytes_order(b, c) == -bytes_order(c, b),
        bytes_order(a, c) == -bytes_order(c, a),
        bytes_order(b, c) == 0 <==> b == c,
        bytes_order(a, c) == 0 <==> a == c,
        -1 <= bytes_order(b, c) <= 1,
        -1 <= bytes_order(a, c) <= 1,
        bytes_le(a, b) && bytes_le(b, c) ==> bytes_le(a, c),
        bytes_le(a, b) && bytes_lt(b, c) ==> bytes_lt(a, c),
        bytes_lt(a, b) && bytes_le(b, c) ==> bytes_lt(a, c),
{
    lemma_bytes_order_properties(a, b);
    lemma_bytes_order_properties(b, c);
    lemma_bytes_order_properties(a, c);
    lemma_bytes_order_properties(b, a);
    lemma_bytes_order_properties(c, b);
    lemma_bytes_order_properties(c, a);
    if bytes_le(a, b) && bytes_le(b, c) {
        lemma_bytes_order_trans(a, b, c);
    }
}

/// A smaller start bound excludes fewer keys.
pub proof fn lemma_start_order_before(a: SpecBound, b: SpecBound, key: Seq<u8>)
    requires
        start_order(a, b) <= 0,
    ensures
        key_before_start(key, a) ==> key_before_start(key, b),
        start_can_cover(b, key) ==> start_can_cover(a, key),
{
    match (a, b) {
        (SpecBound::Included(x), SpecBound::Included(y)) => lemma_bytes_facts(key, x, y),
        (SpecBound::Included(x), SpecBound::Excluded(y)) => lemma_bytes_facts(key, x, y),
        (SpecBound::Excluded(x), SpecBound::Included(y)) => lemma_bytes_facts(key, x, y),
        (SpecBound::Excluded(x), SpecBound::Excluded(y)) => lemma_bytes_facts(key, x, y),
        _ => {},
    }
    match (a, b) {
        (SpecBound::Included(x), SpecBound::Included(y)) => lemma_bytes_facts(x, y, key),
        (SpecBound::Included(x), SpecBound::Excluded(y)) => lemma_bytes_facts(x, y, key),
        (SpecBound::Excluded(x), SpecBound::Included(y)) => lemma_bytes_facts(x, y, key),
        (SpecBound::Excluded(x), SpecBound::Excluded(y)) => lemma_bytes_facts(x, y, key),
        _ => {},
    }
}

/// A larger end bound excludes fewer keys.
pub proof fn lemma_end_order_after(a: SpecBound, b: SpecBound, key: Seq<u8>)
    requires
        end_order(a, b) >= 0,
    ensures
        key_after_end(key, a) ==> key_after_end(key, b),
{
    match (a, b) {
        (SpecBound::Included(x), SpecBound::Included(y)) => lemma_bytes_facts(y, x, key),
        (SpecBound::Included(x), SpecBound::Excluded(y)) => lemma_bytes_facts(y, x, key),
        (SpecBound::Excluded(x), SpecBound::Included(y)) => lemma_bytes_facts(y, x, key),
        (SpecBound::Excluded(x), SpecBound::Excluded(y)) => lemma_bytes_facts(y, x, key),
        _ => {},
    }
}

proof fn lemma_start_order_total(a: SpecBound, b: SpecBound, c: SpecBound)
    ensures
        -1 <= start_order(a, b) <= 1,
        start_order(a, b) == -start_order(b, a),
        start_order(a, b) <= 0 && start_order(b, c) <= 0 ==> start_order(a, c) <= 0,
        start_order(a, b) == 0 ==> a == b,
{
    match (a, b, c) {
        (SpecBound::Included(x), SpecBound::Included(y), SpecBound::Included(z)) => {
            lemma_bytes_facts(x, y, z);
            lemma_bytes_facts(x, z, y);
        },
        (SpecBound::Included(x), SpecBound::Included(y), SpecBound::Excluded(z)) => {
            lemma_bytes_facts(x, y, z);
            lemma_bytes_facts(x, z, y);
        },
        (SpecBound::Included(x), SpecBound::Excluded(y), SpecBound::Included(z)) => {
            lemma_bytes_facts(x, y, z);
            lemma_bytes_facts(x, z, y);
        },
        (SpecBound::Included(x), SpecBound::Excluded(y), SpecBound::Excluded(z)) => {
            lemma_bytes_facts(x, y, z);
            lemma_bytes_facts(x, z, y);
        },
        (SpecBound::Excluded(x), SpecBound::Included(y), SpecBound::Included(z)) => {
            lemma_bytes_facts(x, y, z);
            lemma_bytes_facts(x, z, y);
        },
        (SpecBound::Excluded(x), SpecBound::Included(y), SpecBound::Excluded(z)) => {
            lemma_bytes_facts(x, y, z);
            lemma_bytes_facts(x, z, y);
        },
        (SpecBound::Excluded(x), SpecBound::Excluded(y), SpecBound::Included(z)) => {
            lemma_bytes_facts(x, y, z);
            lemma_bytes_facts(x, z, y);
        },
        (SpecBound::Excluded(x), SpecBound::Excluded(y), SpecBound::Excluded(z)) => {
            lemma_bytes_facts(x, y, z);
            lemma_bytes_facts(x, z, y);
        },
        (SpecBound::Included(x), SpecBound::Included(y), _) => lemma_bytes_facts(x, y, y),
        (SpecBound::Included(x), SpecBound::Excluded(y), _) => lemma_bytes_facts(x, y, y),
        (SpecBound::Excluded(x), SpecBound::Included(y), _) => lemma_bytes_facts(x, y, y),
        (SpecBound::Excluded(x), SpecBound::Excluded(y), _) => lemma_bytes_facts(x, y, y),
        (SpecBound::Included(x), _, SpecBound::Included(z)) => lemma_bytes_facts(x, z, z),
        (SpecBound::Included(x), _, SpecBound::Excluded(z)) => lemma_bytes_facts(x, z, z),
        (SpecBound::Excluded(x), _, SpecBound::Included(z)) => lemma_bytes_facts(x, z, z),
        (SpecBound::Excluded(x), _, SpecBound::Excluded(z)) => lemma_bytes_facts(x, z, z),
        (_, SpecBound::Included(y), SpecBound::Included(z)) => lemma_bytes_facts(y, z, z),
        (_, SpecBound::Included(y), SpecBound::Excluded(z)) => lemma_bytes_facts(y, z, z),
        (_, SpecBound::Excluded(y), SpecBound::Included(z)) => lemma_bytes_facts(y, z, z),
        (_, SpecBound::Excluded(y), SpecBound::Excluded(z)) => lemma_bytes_facts(y, z, z),
        _ => {},
    }
}

proof fn lemma_end_order_total(a: SpecBound, b: SpecBound, c: SpecBound)
    ensures
        -1 <= end_order(a, b) <= 1,
        end_order(a, b) == -end_order(b, a),
        end_order(a, b) <= 0 && end_order(b, c) <= 0 ==> end_order(a, c) <= 0,
        end_order(a, b) == 0 ==> a == b,
{
    match (a, b, c) {
        (SpecBound::Included(x), SpecBound::Included(y), SpecBound::Included(z)) => {
            lemma_bytes_facts(x, y, z);
            lemma_bytes_facts(x, z, y);
        },
        (SpecBound::Included(x), SpecBound::Included(y), SpecBound::Excluded(z)) => {
            lemma_bytes_facts(x, y, z);
            lemma_bytes_facts(x, z, y);
        },
        (SpecBound::Included(x), SpecBound::Excluded(y), SpecBound::Included(z)) => {
            lemma_bytes_facts(x, y, z);
            lemma_bytes_facts(x, z, y);
        },
        (SpecBound::Included(x), SpecBound::Excluded(y), SpecBound::Excluded(z)) => {
            lemma_bytes_facts(x, y, z);
            lemma_bytes_facts(x, z, y);
        },
        (SpecBound::Excluded(x), SpecBound::Included(y), SpecBound::Included(z)) => {
            lemma_bytes_facts(x, y, z);
            lemma_bytes_facts(x, z, y);
        },
        (SpecBound::Excluded(x), SpecBound::Included(y), SpecBound::Excluded(z)) => {
            lemma_bytes_facts(x, y, z);
            lemma_bytes_facts(x, z, y);
        },
        (SpecBound::Excluded(x), SpecBound::Excluded(y), SpecBound::Included(z)) => {
            lemma_bytes_facts(x, y, z);
            lemma_bytes_facts(x, z, y);
        },
        (SpecBound::Excluded(x), SpecBound::Excluded(y), SpecBound::Excluded(z)) => {
            lemma_bytes_facts(x, y, z);
            lemma_bytes_facts(x, z, y);
        },
        (SpecBound::Included(x), SpecBound::Included(y), _) => lemma_bytes_facts(x, y, y),
        (SpecBound::Included(x), SpecBound::Excluded(y), _) => lemma_bytes_facts(x, y, y),
        (SpecBound::Excluded(x), SpecBound::Included(y), _) => lemma_bytes_facts(x, y, y),
        (SpecBound::Excluded(x), SpecBound::Excluded(y), _) => lemma_bytes_facts(x, y, y),
        (SpecBound::Included(x), _, SpecBound::Included(z)) => lemma_bytes_facts(x, z, z),
        (SpecBound::Included(x), _, SpecBound::Excluded(z)) => lemma_bytes_facts(x, z, z),
        (SpecBound::Excluded(x), _, SpecBound::Included(z)) => lemma_bytes_facts(x, z, z),
        (SpecBound::Excluded(x), _, SpecBound::Excluded(z)) => lemma_bytes_facts(x, z, z),
        (_, SpecBound::Included(y), SpecBound::Included(z)) => lemma_bytes_facts(y, z, z),
        (_, SpecBound::Included(y), SpecBound::Excluded(z)) => lemma_bytes_facts(y, z, z),
        (_, SpecBound::Excluded(y), SpecBound::Included(z)) => lemma_bytes_facts(y, z, z),
        (_, SpecBound::Excluded(y), SpecBound::Excluded(z)) => lemma_bytes_facts(y, z, z),
        _ => {},
    }
}

/// Range order is a total preorder.
pub proof fn lemma_range_order(a: KeyRange, b: KeyRange, c: KeyRange)
    ensures
        -1 <= range_order(a, b) <= 1,
        range_order(a, b) == -range_order(b, a),
        range_order(a, b) <= 0 && range_order(b, c) <= 0 ==> range_order(a, c) <= 0,
        range_order(a, b) <= 0 ==> start_order(a.start_view(), b.start_view()) <= 0,
{
    lemma_start_order_total(a.start_view(), b.start_view(), c.start_view());
    lemma_start_order_total(b.start_view(), c.start_view(), a.start_view());
    lemma_start_order_total(a.start_view(), c.start_view(), b.start_view());
    lemma_end_order_total(a.end_view(), b.end_view(), c.end_view());
}

fn key_before_start_bound(key: &[u8], start: &Bound<Vec<u8>>) -> (r: bool)
    ensures
        r == key_before_start(key@, bound_view(*start)),
{
    match start {
        Bound::Included(s) => crate::bytes::bytes_less(key, s.as_slice()),
        Bound::Excluded(s) => crate::bytes::bytes_less_eq(key, s.as_slice()),
        Bound::Unbounded => false,
    }
}

fn key_after_end_bound(key: &[u8], end: &Bound<Vec<u8>>) -> (r: bool)
    ensures
        r == key_after_end(key@, bound_view(*end)),
{
    match end {
        Bound::Included(e) => crate::bytes::bytes_less(e.as_slice(), key),
        Bound::Excluded(e) => crate::bytes::bytes_less_eq(e.as_slice(), key),
        Bound::Unbounded => false,
    }
}

/// `key` lies inside `range`.
pub fn key_is_in_range(key: &[u8], range: &KeyRange) -> (r: bool)
    ensures
        r == key_in_range(key@, *range),
{
    !key_before_start_bound(key, &range.start) && !key_after_end_bound(key, &range.end)
}

fn range_ends_before_start(end: &Bound<Vec<u8>>, start: &Bound<Vec<u8>>) -> (r: bool)
    ensures
        r == ends_before_start(bound_view(*end), bound_view(*start)),
{
    match (end, start) {
        (Bound::Unbounded, _) => false,
        (_, Bound::Unbounded) => false,
        (Bound::Excluded(e), Bound::Included(s)) => crate::bytes::bytes_less_eq(e.as_slice(), s.as_slice()),
        (Bound::Excluded(e), Bound::Excluded(s)) => crate::bytes::bytes_less_eq(e.as_slice(), s.as_slice()),
        (Bound::Included(e), Bound::Included(s)) => crate::bytes::bytes_less(e.as_slice(), s.as_slice()),
        (Bound::Included(e), Bound::Excluded(s)) => crate::bytes::bytes_less_eq(e.as_slice(), s.as_slice()),
    }
}

/// Two ranges overlap: neither ends before the other starts. Every key that
/// lies in both ranges makes them overlap.
pub fn ranges_overlap(left: &KeyRange, right: &KeyRange) -> (r: bool)
    ensures
        r == spec_ranges_overlap(*left, *right),
{
    !range_ends_before_start(&left.end, &right.start) && !range_ends_before_start(&right.end, &left.start)
}

/// A key that lies in two ranges makes them overlap.
pub proof fn lemma_common_key_overlaps(left: KeyRange, right: KeyRange, key: Seq<u8>)
    requires
        key_in_range(key, left),
        key_in_range(key, right),
    ensures
        spec_ranges_overlap(left, right),
{
    match (left.end_view(), right.start_view()) {
        (SpecBound::Included(e), SpecBound::Included(s)) => lemma_bytes_facts(s, key, e),
        (SpecBound::Included(e), SpecBound::Excluded(s)) => lemma_bytes_facts(s, key, e),
        (SpecBound::Excluded(e), SpecBound::Included(s)) => lemma_bytes_facts(s, key, e),
        (SpecBound::Excluded(e), SpecBound::Excluded(s)) => lemma_bytes_facts(s, key, e),
        _ => {},
    }
    match (right.end_view(), left.start_view()) {
        (SpecBound::Included(e), SpecBound::Included(s)) => lemma_bytes_facts(s, key, e),
        (SpecBound::Included(e), SpecBound::Excluded(s)) => lemma_bytes_facts(s, key, e),
        (SpecBound::Excluded(e), SpecBound::Included(s)) => lemma_bytes_facts(s, key, e),
        (SpecBound::Excluded(e), SpecBound::Excluded(s)) => lemma_bytes_facts(s, key, e),
        _ => {},
    }
}

fn compare_start_bounds(left: &Bound<Vec<u8>>, right: &Bound<Vec<u8>>) -> (r: Order)
    ensures
        r.as_int() == start_order(bound_view(*left), bound_view(*right)),
{
    match (left, right) {
        (Bound::Unbounded, Bound::Unbounded) => Order::Equal,
        (Bound::Unbounded, _) => Order::Less,
        (_, Bound::Unbounded) => Order::Greater,
        (Bound::Included(l), Bound::Included(r)) => compare_bytes(l.as_slice(), r.as_slice()),
        (Bound::Excluded(l), Bound::Excluded(r)) => compare_bytes(l.as_slice(), r.as_slice()),
        (Bound::Included(l), Bound::Excluded(r)) => match compare_bytes(l.as_slice(), r.as_slice()) {
            Order::Equal => Order::Less,
            other => other,
        },
        (Bound::Excluded(l), Bound::Included(r)) => match compare_bytes(l.as_slice(), r.as_slice()) {
            Order::Equal => Order::Greater,
            other => other,
        },
    }
}

fn compare_end_bounds(left: &Bound<Vec<u8>>, right: &Bound<Vec<u8>>) -> (r: Order)
    ensures
        r.as_int() == end_order(bound_view(*left), bound_view(*right)),
{
    match (left, right) {
        (Bound::Unbounded, Bound::Unbounded) => Order::Equal,
        (Bound::Unbounded, _) => Order::Greater,
        (_, Bound::Unbounded) => Order::Less,
        (Bound::Included(l), Bound::Included(r)) => compare_bytes(l.as_slice(), r.as_slice()),
        (Bound::Excluded(l), Bound::Excluded(r)) => compare_bytes(l.as_slice(), r.as_slice()),
        (Bound::Excluded(l), Bound::Included(r)) => match compare_bytes(l.as_slice(), r.as_slice()) {
            Order::Equal => Order::Less,
            other => other,
        },
        (Bound::Included(l), Bound::Excluded(r)) => match compare_bytes(l.as_slice(), r.as_slice()) {
            Order::Equal => Order::Greater,
            other => other,
        },
    }
}

/// Compares two ranges: by start bound, then by end bound.
pub fn compare_ranges(left: &KeyRange, right: &KeyRange) -> (r: Order)
    ensures
        r.as_int() == range_order(*left, *right),
{
    match compare_start_bounds(&left.start, &right.start) {
        Order::Equal => compare_end_bounds(&left.end, &right.end),
        other => other,
    }
}

/// The later of two start bounds.
pub open spec fn spec_max_start(left: SpecBound, right: SpecBound) -> SpecBound {
    if start_order(left, right) < 0 {
        right
    } else {
        left
    }
}

/// The earlier of two end bounds.
pub open spec fn spec_min_end(left: SpecBound, right: SpecBound) -> SpecBound {
    if end_order(left, right) > 0 {
        right
    } else {
        left
    }
}

/// The later of two start bounds: a key is after it exactly when it is after
/// both.
fn max_start_bound(left: &Bound<Vec<u8>>, right: &Bound<Vec<u8>>) -> (r: Bound<Vec<u8>>)
    ensures
        bound_view(r) == spec_max_start(bound_view(*left), bound_view(*right)),
        forall|key: Seq<u8>| key_before_start(key, bound_view(r)) <==> (key_before_start(key, bound_view(*left))
            || key_before_start(key, bound_view(*right))),
{
    proof {
        lemma_start_order_total(bound_view(*left), bound_view(*right), bound_view(*right));
    }
    match compare_start_bounds(left, right) {
        Order::Less => {
            proof {
                assert forall|key: Seq<u8>| key_before_start(key, bound_view(*left)) implies key_before_start(key, bound_view(*right)) by {
                    lemma_start_order_before(bound_view(*left), bound_view(*right), key);
                }
            }
            clone_bound(right)
        },
        _ => {
            proof {
                assert forall|key: Seq<u8>| key_before_start(key, bound_view(*right)) implies key_before_start(key, bound_view(*left)) by {
                    lemma_start_order_before(bound_view(*right), bound_view(*left), key);
                }
            }
            clone_bound(left)
        },
    }
}

/// The earlier of two end bounds: a key is before it exactly when it is
/// before both.
fn min_end_bound(left: &Bound<Vec<u8>>, right: &Bound<Vec<u8>>) -> (r: Bound<Vec<u8>>)
    ensures
        bound_view(r) == spec_min_end(bound_view(*left), bound_view(*right)),
        forall|key: Seq<u8>| key_after_end(key, bound_view(r)) <==> (key_after_end(key, bound_view(*left))
            || key_after_end(key, bound_view(*right))),
{
    proof {
        lemma_end_order_total(bound_view(*left), bound_view(*right), bound_view(*right));
    }
    match compare_end_bounds(left, right) {
        Order::Greater => {
            proof {
                assert forall|key: Seq<u8>| key_after_end(key, bound_view(*left)) implies key_after_end(key, bound_view(*right)) by {
                    lemma_end_order_after(bound_view(*left), bound_view(*right), key);
                }
            }
            clone_bound(right)
        },
        _ => {
            proof {
                assert forall|key: Seq<u8>| key_after_end(key, bound_view(*right)) implies key_after_end(key, bound_view(*left)) by {
                    lemma_end_order_after(bound_view(*right), bound_view(*left), key);
                }
            }
            clone_bound(left)
        },
    }
}

/// The intersection of two ranges, or `None` when they do not overlap. A key
/// lies in the intersection exactly when it lies in both ranges.
pub fn range_intersection(left: &KeyRange, right: &KeyRange) -> (r: Option<KeyRange>)
    ensures
        r is Some <==> spec_ranges_overlap(*left, *right),
        r matches Some(range) ==> forall|key: Seq<u8>|
            key_in_range(key, range) <==> (key_in_range(key, *left) && key_in_range(key, *right)),
        r matches Some(range) ==> range.start_view() == spec_max_start(left.start_view(), right.start_view())
            && range.end_view() == spec_min_end(left.end_view(), right.end_view()),
{
    if !ranges_overlap(left, right) {
        return None;
    }
    Some(KeyRange { start: max_start_bound(&left.start, &right.start), end: min_end_bound(&left.end, &right.end) })
}

/// The range from `smallest` to `largest`, both included.
pub fn range_from_inclusive_span(smallest: &[u8], largest: &[u8]) -> (r: KeyRange)
    ensures
        r.start_view() == SpecBound::Included(smallest@),
        r.end_view() == SpecBound::Included(largest@),
{
    KeyRange::inclusive(smallest, largest)
}

fn start_can_cover_key(start: &Bound<Vec<u8>>, key: &[u8]) -> (r: bool)
    ensures
        r == start_can_cover(bound_view(*start), key@),
{
    match start {
        Bound::Unbounded => true,
        Bound::Included(s) => crate::bytes::bytes_less_eq(s.as_slice(), key),
        Bound::Excluded(s) => crate::bytes::bytes_less(s.as_slice(), key),
    }
}

} // verus!

verus! {

/// A value that deletes a range of keys.
pub trait RangeTombstoneLike {
    spec fn spec_range(&self) -> KeyRange;

    fn range(&self) -> (r: &KeyRange)
        ensures
            *r == self.spec_range(),
    ;
}

/// Tombstones sorted by range: by start bound, then by end bound.
pub open spec fn tombstones_sorted<T: RangeTombstoneLike>(tombstones: Seq<T>) -> bool {
    forall|i: int, j: int|
        0 <= i < j < tombstones.len() ==> range_order(tombstones[i].spec_range(), tombstones[j].spec_range()) <= 0
}

/// Range tombstones kept sorted so that lookups stop at the first tombstone
/// that starts past the queried key or range.
#[derive(Debug, Clone, PartialEq, Eq)]
pub struct RangeTombstoneIndex<T> {
    tombstones: Vec<T>,
}

impl<T> View for RangeTombstoneIndex<T> {
    type V = Seq<T>;

    closed spec fn view(&self) -> Seq<T> {
        self.tombstones@
    }
}

proof fn lemma_not_cover_is_before(start: SpecBound, key: Seq<u8>)
    ensures
        !start_can_cover(start, key) ==> key_before_start(key, start),
{
    match start {
        SpecBound::Included(s) => lemma_bytes_facts(s, key, key),
        SpecBound::Excluded(s) => lemma_bytes_facts(s, key, key),
        _ => {},
    }
}

proof fn lemma_overlap_start_monotone(a: SpecBound, b: SpecBound, end: SpecBound)
    requires
        start_order(a, b) <= 0,
        !ends_before_start(end, b),
    ensures
        !ends_before_start(end, a),
{
    match (end, a, b) {
        (SpecBound::Included(e), SpecBound::Included(x), SpecBound::Included(y)) => lemma_bytes_facts(x, y, e),
        (SpecBound::Included(e), SpecBound::Included(x), SpecBound::Excluded(y)) => lemma_bytes_facts(x, y, e),
        (SpecBound::Included(e), SpecBound::Excluded(x), SpecBound::Included(y)) => lemma_bytes_facts(x, y, e),
        (SpecBound::Included(e), SpecBound::Excluded(x), SpecBound::Excluded(y)) => lemma_bytes_facts(x, y, e),
        (SpecBound::Excluded(e), SpecBound::Included(x), SpecBound::Included(y)) => lemma_bytes_facts(x, y, e),
        (SpecBound::Excluded(e), SpecBound::Included(x), SpecBound::Excluded(y)) => lemma_bytes_facts(x, y, e),
        (SpecBound::Excluded(e), SpecBound::Excluded(x), SpecBound::Included(y)) => lemma_bytes_facts(x, y, e),
        (SpecBound::Excluded(e), SpecBound::Excluded(x), SpecBound::Excluded(y)) => lemma_bytes_facts(x, y, e),
        _ => {},
    }
}

/// Filtering a sequence whose elements from `k` on all fail the predicate
/// keeps only elements before `k`.
proof fn lemma_filter_prefix<A>(s: Seq<A>, k: int, pred: spec_fn(A) -> bool)
    requires
        0 <= k <= s.len(),
        forall|j: int| k <= j < s.len() ==> !pred(s[j]),
    ensures
        s.filter(pred) == s.take(k).filter(pred),
{
    broadcast use vstd::seq_lib::group_seq_lib_default;

    assert(s =~= s.take(k) + s.skip(k));
    Seq::filter_distributes_over_add(s.take(k), s.skip(k), pred);
    assert(s.skip(k).all(|x: A| !pred(x)));
    s.skip(k).lemma_all_neg_filter_empty(pred);
    assert(s.skip(k).filter(pred) =~= Seq::<A>::empty());
    assert(s.take(k).filter(pred) + Seq::<A>::empty() =~= s.take(k).filter(pred));
}

pub open spec fn deref_all<T>(refs: Seq<&T>) -> Seq<T> {
    refs.map_values(|r: &T| *r)
}

impl<T: RangeTombstoneLike> RangeTombstoneIndex<T> {
    pub closed spec fn well_formed(&self) -> bool {
        tombstones_sorted(self.tombstones@)
    }

    /// Sorts the tombstones into an index. The index holds the same
    /// tombstones.
    pub fn new(tombstones: Vec<T>) -> (r: Self)
        ensures
            r.well_formed(),
            tombstones_sorted(r@),
            r@.to_multiset() == tombstones@.to_multiset(),
    {
        let sorted = sort_tombstones(tombstones);
        Self { tombstones: sorted }
    }

    /// The tombstones in sorted order.
    pub fn all(&self) -> (r: &[T])
        ensures
            r@ == self@,
    {
        self.tombstones.as_slice()
    }

    /// The tombstones whose range holds `key`, in index order.
    pub fn covering_key<'a>(&'a self, key: &[u8]) -> (r: Vec<&'a T>)
        requires
            self.well_formed(),
        ensures
            deref_all(r@) == self@.filter(|t: T| key_in_range(key@, t.spec_range())),
    {
        let ghost pred = |t: T| key_in_range(key@, t.spec_range());
        let ghost all = self.tombstones@;
        let mut out: Vec<&'a T> = Vec::new();
        let mut i: usize = 0;
        while i < self.tombstones.len()
            invariant
                i <= all.len(),
                all == self.tombstones@,
                tombstones_sorted(all),
                pred == (|t: T| key_in_range(key@, t.spec_range())),
                deref_all(out@) == all.take(i as int).filter(pred),
            decreases all.len() - i,
        {
            let tombstone = &self.tombstones[i];
            let range = tombstone.range();
            if !start_can_cover_key(&range.start, key) {
                proof {
                    assert forall|j: int| i <= j < all.len() implies !pred(all[j]) by {
                        lemma_range_order(all[i as int].spec_range(), all[j].spec_range(), all[j].spec_range());
                        if j > i {
                            lemma_start_order_before(all[i as int].spec_range().start_view(), all[j].spec_range().start_view(), key@);
                        }
                        lemma_not_cover_is_before(all[j].spec_range().start_view(), key@);
                    }
                    lemma_filter_prefix(all, i as int, pred);
                }
                return out;
            }
            let ghost before = out@;
            if key_is_in_range(key, range) {
                out.push(tombstone);
            }
            proof {
                assert(all.take(i + 1) =~= all.take(i as int).push(all[i as int]));
                all.take(i as int).lemma_filter_push(all[i as int], pred);
                assert(deref_all(out@) =~= all.take(i + 1).filter(pred));
            }
            i = i + 1;
        }
        proof {
            assert(all.take(all.len() as int) =~= all);
        }
        out
    }

    /// The tombstones whose range overlaps `range`, in index order.
    pub fn overlapping_range<'a>(&'a self, range: &KeyRange) -> (r: Vec<&'a T>)
        requires
            self.well_formed(),
        ensures
            deref_all(r@) == self@.filter(|t: T| spec_ranges_overlap(*range, t.spec_range())),
    {
        let ghost pred = |t: T| spec_ranges_overlap(*range, t.spec_range());
        let ghost all = self.tombstones@;
        let mut out: Vec<&'a T> = Vec::new();
        let mut i: usize = 0;
        while i < self.tombstones.len()
            invariant
                i <= all.len(),
                all == self.tombstones@,
                tombstones_sorted(all),
                pred == (|t: T| spec_ranges_overlap(*range, t.spec_range())),
                deref_all(out@) == all.take(i as int).filter(pred),
            decreases all.len() - i,
        {
            let tombstone = &self.tombstones[i];
            let tombstone_range = tombstone.range();
            if range_ends_before_start(&range.end, &tombstone_range.start) {
                proof {
                    assert forall|j: int| i <= j < all.len() implies !pred(all[j]) by {
                        lemma_range_order(all[i as int].spec_range(), all[j].spec_range(), all[j].spec_range());
                        if j > i && !ends_before_start(range.end_view(), all[j].spec_range().start_view()) {
                            lemma_overlap_start_monotone(all[i as int].spec_range().start_view(), all[j].spec_range().start_view(), range.end_view());
                        }
                    }
                    lemma_filter_prefix(all, i as int, pred);
                }
                return out;
            }
            if ranges_overlap(range, tombstone_range) {
                out.push(tombstone);
            }
            proof {
                assert(all.take(i + 1) =~= all.take(i as int).push(all[i as int]));
                all.take(i as int).lemma_filter_push(all[i as int], pred);
                assert(deref_all(out@) =~= all.take(i + 1).filter(pred));
            }
            i = i + 1;
        }
        proof {
            assert(all.take(all.len() as int) =~= all);
        }
        out
    }
}

/// Sorts tombstones by range. The result holds the same tombstones.
pub fn sort_tombstones<T: RangeTombstoneLike>(tombstones: Vec<T>) -> (r: Vec<T>)
    ensures
        tombstones_sorted(r@),
        r@.to_multiset() == tombstones@.to_multiset(),
{
    broadcast use vstd::seq_lib::group_to_multiset_ensures;

    let mut input = tombstones;
    let mut out: Vec<T> = Vec::new();
    while input.len() > 0
        invariant
            out@.to_multiset().add(input@.to_multiset()) == tombstones@.to_multiset(),
            tombstones_sorted(out@),
            forall|i: int, j: int|
                0 <= i < out@.len() && 0 <= j < input@.len() ==> range_order(out@[i].spec_range(), input@[j].spec_range()) <= 0,
        decreases input@.len(),
    {
        let mut best: usize = 0;
        let mut i: usize = 1;
        proof {
            lemma_range_order(input@[0].spec_range(), input@[0].spec_range(), input@[0].spec_range());
        }
        while i < input.len()
            invariant
                1 <= i <= input@.len(),
                best < input@.len(),
                forall|j: int| 0 <= j < i ==> range_order(input@[best as int].spec_range(), input@[j].spec_range()) <= 0,
            decreases input@.len() - i,
        {
            match compare_ranges(input[i].range(), input[best].range()) {
                Order::Less => {
                    proof {
                        assert forall|j: int| 0 <= j <= i implies range_order(input@[i as int].spec_range(), input@[j].spec_range()) <= 0 by {
                            lemma_range_order(input@[i as int].spec_range(), input@[best as int].spec_range(), input@[j].spec_range());
                            lemma_range_order(input@[i as int].spec_range(), input@[i as int].spec_range(), input@[i as int].spec_range());
                        }
                    }
                    best = i;
                },
                _ => {
                    proof {
                        lemma_range_order(input@[best as int].spec_range(), input@[i as int].spec_range(), input@[i as int].spec_range());
                    }
                },
            }
            i = i + 1;
        }
        let ghost before = input@;
        let ghost out_before = out@;
        let item = input.remove(best);
        proof {
            before.to_multiset_ensures();
            out_before.to_multiset_ensures();
            assert forall|j: int| 0 <= j < input@.len() implies range_order(item.spec_range(), input@[j].spec_range()) <= 0 by {
                if j < best {
                    assert(input@[j] == before[j]);
                } else {
                    assert(input@[j] == before[j + 1]);
                }
            }
        }
        out.push(item);
        proof {
            assert(out@.to_multiset().add(input@.to_multiset()) =~= tombstones@.to_multiset());
            assert forall|a: int, b: int| 0 <= a < b < out@.len()
                implies range_order(out@[a].spec_range(), out@[b].spec_range()) <= 0 by {
                if b == out@.len() - 1 {
                    assert(out@[a] == out_before[a]);
                    assert(before[best as int] == item);
                } else {
                    assert(out@[a] == out_before[a]);
                    assert(out@[b] == out_before[b]);
                }
            }
            assert forall|a: int, j: int| 0 <= a < out@.len() && 0 <= j < input@.len()
                implies range_order(out@[a].spec_range(), input@[j].spec_range()) <= 0 by {
                if a < out_before.len() {
                    if j < best {
                        assert(input@[j] == before[j]);
                    } else {
                        assert(input@[j] == before[j + 1]);
                    }
                }
            }
        }
    }
    proof {
        assert(input@.to_multiset() =~= vstd::multiset::Multiset::empty());
        assert(out@.to_multiset().add(vstd::multiset::Multiset::empty()) =~= out@.to_multiset());
    }
    out
}

/// Inserts a tombstone where it keeps the list sorted.
pub fn insert_sorted<T: RangeTombstoneLike>(tombstones: &mut Vec<T>, tombstone: T)
    requires
        tombstones_sorted(old(tombstones)@),
    ensures
        tombstones_sorted(final(tombstones)@),
        final(tombstones)@.to_multiset() == old(tombstones)@.to_multiset().insert(tombstone),
{
    broadcast use vstd::seq_lib::group_to_multiset_ensures;

    let ghost start = tombstones@;
    let mut position: usize = 0;
    while position < tombstones.len()
        invariant
            tombstones@ == start,
            position <= start.len(),
            tombstones_sorted(start),
            forall|j: int| 0 <= j < position ==> range_order(start[j].spec_range(), tombstone.spec_range()) <= 0,
        ensures
            position <= start.len(),
            forall|j: int| 0 <= j < position ==> range_order(start[j].spec_range(), tombstone.spec_range()) <= 0,
            position < start.len() ==> range_order(start[position as int].spec_range(), tombstone.spec_range()) > 0,
        decreases start.len() - position,
    {
        match compare_ranges(tombstones[position].range(), tombstone.range()) {
            Order::Greater => break,
            _ => {},
        }
        position = position + 1;
    }
    proof {
        assert forall|j: int| position <= j < start.len() implies range_order(tombstone.spec_range(), start[j].spec_range()) <= 0 by {
            if position < start.len() {
                lemma_range_order(start[position as int].spec_range(), tombstone.spec_range(), tombstone.spec_range());
                lemma_range_order(tombstone.spec_range(), start[position as int].spec_range(), start[j].spec_range());
            }
        }
    }
    tombstones.insert(position, tombstone);
    proof {
        start.to_multiset_ensures();
        assert forall|a: int, b: int| 0 <= a < b < tombstones@.len()
            implies range_order(tombstones@[a].spec_range(), tombstones@[b].spec_range()) <= 0 by {
            if b < position {
            } else if b == position {
            } else if a < position {
                assert(tombstones@[b] == start[b - 1]);
                lemma_range_order(start[a].spec_range(), tombstone.spec_range(), start[b - 1].spec_range());
            } else if a == position {
                assert(tombstones@[b] == start[b - 1]);
            } else {
                assert(tombstones@[a] == start[a - 1]);
                assert(tombstones@[b] == start[b - 1]);
            }
        }
    }
}

} // verus!
