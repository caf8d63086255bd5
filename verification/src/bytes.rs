//! Lexicographic order on byte strings, the order in which user keys sort.

use vstd::prelude::*;

verus! {

/// Result of comparing two values.
#[derive(Debug, Clone, Copy, PartialEq, Eq, Structural)]
pub enum Order {
    Less,
    Equal,
    Greater,
}

impl Order {
    /// The order as an integer: -1, 0 or 1.
    pub open spec fn as_int(self) -> int {
        match self {
            Order::Less => -1,
            Order::Equal => 0,
            Order::Greater => 1,
        }
    }

    pub open spec fn from_int(value: int) -> Order {
        if value < 0 {
            Order::Less
        } else if value == 0 {
            Order::Equal
        } else {
            Order::Greater
        }
    }
}

/// Lexicographic comparison of `a` and `b` from position `i` on, assuming
/// the two agree before `i`.
pub open spec fn order_from(a: Seq<u8>, b: Seq<u8>, i: int) -> int
    decreases a.len() - i, b.len() - i,
{
    if i < 0 {
        0
    } else if i >= a.len() && i >= b.len() {
        0
    } else if i >= a.len() {
        -1
    } else if i >= b.len() {
        1
    } else if a[i] < b[i] {
        -1
    } else if a[i] > b[i] {
        1
    } else {
        order_from(a, b, i + 1)
    }
}

/// Lexicographic comparison of byte strings: -1, 0 or 1.
pub open spec fn bytes_order(a: Seq<u8>, b: Seq<u8>) -> int {
    order_from(a, b, 0)
}

pub open spec fn bytes_lt(a: Seq<u8>, b: Seq<u8>) -> bool {
    bytes_order(a, b) < 0
}

pub open spec fn bytes_le(a: Seq<u8>, b: Seq<u8>) -> bool {
    bytes_order(a, b) <= 0
}

pub proof fn lemma_order_from_range(a: Seq<u8>, b: Seq<u8>, i: int)
    ensures
        -1 <= order_from(a, b, i) <= 1,
    decreases a.len() - i, b.len() - i,
{
    if 0 <= i < a.len() && i < b.len() && a[i] == b[i] {
        lemma_order_from_range(a, b, i + 1);
    }
}

pub proof fn lemma_order_from_antisym(a: Seq<u8>, b: Seq<u8>, i: int)
    ensures
        order_from(a, b, i) == -order_from(b, a, i),
    decreases a.len() - i, b.len() - i,
{
    if 0 <= i < a.len() && i < b.len() && a[i] == b[i] {
        lemma_order_from_antisym(a, b, i + 1);
    }
}

pub proof fn lemma_order_from_zero(a: Seq<u8>, b: Seq<u8>, i: int)
    requires
        0 <= i,
        i <= a.len(),
        i <= b.len(),
    ensures
        order_from(a, b, i) == 0 <==> (a.len() == b.len() && forall|j: int|
            i <= j < a.len() ==> a[j] == b[j]),
    decreases a.len() - i, b.len() - i,
{
    if i < a.len() && i < b.len() && a[i] == b[i] {
        lemma_order_from_zero(a, b, i + 1);
        if a.len() == b.len() && (forall|j: int| i + 1 <= j < a.len() ==> a[j] == b[j]) {
            assert forall|j: int| i <= j < a.len() implies a[j] == b[j] by {
                if j > i {
                }
            }
        }
    }
}

pub proof fn lemma_order_from_trans(a: Seq<u8>, b: Seq<u8>, c: Seq<u8>, i: int)
    requires
        order_from(a, b, i) <= 0,
        order_from(b, c, i) <= 0,
    ensures
        order_from(a, c, i) <= 0,
        order_from(a, b, i) < 0 || order_from(b, c, i) < 0 ==> order_from(a, c, i) < 0,
    decreases a.len() - i, b.len() - i, c.len() - i,
{
    if 0 <= i < a.len() && i < b.len() && i < c.len() && a[i] == b[i] && b[i] == c[i] {
        lemma_order_from_trans(a, b, c, i + 1);
    }
}

/// Byte-string comparison is a total order: `bytes_order` is -1, 0 or 1, it is
/// antisymmetric, it is 0 exactly on equal strings, and it is transitive.
pub proof fn lemma_bytes_order_properties(a: Seq<u8>, b: Seq<u8>)
    ensures
        -1 <= bytes_order(a, b) <= 1,
        bytes_order(a, b) == -bytes_order(b, a),
        bytes_order(a, b) == 0 <==> a == b,
{
    lemma_order_from_range(a, b, 0);
    lemma_order_from_antisym(a, b, 0);
    lemma_order_from_zero(a, b, 0);
    if a.len() == b.len() && (forall|j: int| 0 <= j < a.len() ==> a[j] == b[j]) {
        assert(a =~= b);
    }
}

pub proof fn lemma_bytes_order_trans(a: Seq<u8>, b: Seq<u8>, c: Seq<u8>)
    requires
        bytes_le(a, b),
        bytes_le(b, c),
    ensures
        bytes_le(a, c),
        bytes_lt(a, b) || bytes_lt(b, c) ==> bytes_lt(a, c),
{
    lemma_order_from_trans(a, b, c, 0);
}

/// Compares two byte strings lexicographically.
pub fn compare_bytes(a: &[u8], b: &[u8]) -> (r: Order)
    ensures
        r.as_int() == bytes_order(a@, b@),
{
    let mut i: usize = 0;
    while i < a.len() && i < b.len()
        invariant
            i <= a@.len(),
            i <= b@.len(),
            order_from(a@, b@, i as int) == bytes_order(a@, b@),
        decreases a@.len() - i,
    {
        if a[i] < b[i] {
            return Order::Less;
        } else if a[i] > b[i] {
            return Order::Greater;
        }
        i = i + 1;
    }
    if i < a.len() {
        Order::Greater
    } else if i < b.len() {
        Order::Less
    } else {
        Order::Equal
    }
}

/// `a < b` in byte order.
pub fn bytes_less(a: &[u8], b: &[u8]) -> (r: bool)
    ensures
        r == bytes_lt(a@, b@),
{
    match compare_bytes(a, b) {
        Order::Less => true,
        _ => false,
    }
}

/// `a <= b` in byte order.
pub fn bytes_less_eq(a: &[u8], b: &[u8]) -> (r: bool)
    ensures
        r == bytes_le(a@, b@),
{
    match compare_bytes(a, b) {
        Order::Greater => false,
        _ => true,
    }
}

/// Byte-wise equality.
pub fn bytes_equal(a: &[u8], b: &[u8]) -> (r: bool)
    ensures
        r == (a@ == b@),
{
    proof {
        lemma_bytes_order_properties(a@, b@);
    }
    match compare_bytes(a, b) {
        Order::Equal => true,
        _ => false,
    }
}

/// `key` starts with `prefix`.
pub fn starts_with(key: &[u8], prefix: &[u8]) -> (r: bool)
    ensures
        r == prefix@.is_prefix_of(key@),
{
    if prefix.len() > key.len() {
        return false;
    }
    let mut i: usize = 0;
    while i < prefix.len()
        invariant
            prefix@.len() <= key@.len(),
            i <= prefix@.len(),
            forall|j: int| 0 <= j < i ==> prefix@[j] == key@[j],
        decreases prefix@.len() - i,
    {
        if prefix[i] != key[i] {
            return false;
        }
        i = i + 1;
    }
    true
}

/// Copies a byte slice into a new vector.
pub fn to_vec(bytes: &[u8]) -> (r: Vec<u8>)
    ensures
        r@ == bytes@,
{
    let mut out: Vec<u8> = Vec::with_capacity(bytes.len());
    let mut i: usize = 0;
    while i < bytes.len()
        invariant
            i <= bytes@.len(),
            out@ == bytes@.take(i as int),
        decreases bytes@.len() - i,
    {
        out.push(bytes[i]);
        i = i + 1;
        proof {
            assert(out@ =~= bytes@.take(i as int));
        }
    }
    proof {
        assert(bytes@.take(bytes@.len() as int) =~= bytes@);
    }
    out
}

/// Appends `bytes` to `out`.
pub fn append_bytes(out: &mut Vec<u8>, bytes: &[u8])
    ensures
        final(out)@ == old(out)@ + bytes@,
{
    let ghost start = out@;
    let mut i: usize = 0;
    while i < bytes.len()
        invariant
            i <= bytes@.len(),
            out@ == start + bytes@.take(i as int),
        decreases bytes@.len() - i,
    {
        out.push(bytes[i]);
        i = i + 1;
        proof {
            assert(out@ =~= start + bytes@.take(i as int));
        }
    }
    proof {
        assert(bytes@.take(bytes@.len() as int) =~= bytes@);
    }
}

} // verus!
