//! Internal keys: a user key tagged with its commit sequence, batch position
//! and operation kind, ordered so that newer versions of a key come first.

use vstd::prelude::*;
use crate::bytes::{bytes_order, lemma_bytes_order_properties, lemma_bytes_order_trans, Order};
use crate::types::Sequence;

verus! {

/// The operation an internal record stands for.
#[derive(Debug, Clone, Copy, PartialEq, Eq, Structural, PartialOrd, Ord, Hash)]
pub enum ValueKind {
    Put,
    PointDelete,
    RangeDelete,
}

pub open spec fn kind_rank(kind: ValueKind) -> int {
    match kind {
        ValueKind::Put => 0,
        ValueKind::PointDelete => 1,
        ValueKind::RangeDelete => 2,
    }
}

/// A user key with its version: sequence, batch index and kind.
#[derive(Debug, Clone, PartialEq, Eq, Hash)]
pub struct InternalKey {
    user_key: Vec<u8>,
    sequence: Sequence,
    kind: ValueKind,
    batch_index: u32,
}

/// The mathematical value of an internal key.
pub struct InternalKeyView {
    pub user_key: Seq<u8>,
    pub sequence: u64,
    pub kind: ValueKind,
    pub batch_index: u32,
}

impl View for InternalKey {
    type V = InternalKeyView;

    closed spec fn view(&self) -> InternalKeyView {
        InternalKeyView {
            user_key: self.user_key@,
            sequence: self.sequence.spec_get(),
            kind: self.kind,
            batch_index: self.batch_index,
        }
    }
}

/// Order of internal keys as -1, 0 or 1: user key ascending, then sequence
/// descending, then batch index descending, then kind.
pub open spec fn key_order(a: InternalKeyView, b: InternalKeyView) -> int {
    let by_user_key = bytes_order(a.user_key, b.user_key);
    if by_user_key != 0 {
        by_user_key
    } else if a.sequence > b.sequence {
        -1
    } else if a.sequence < b.sequence {
        1
    } else if a.batch_index > b.batch_index {
        -1
    } else if a.batch_index < b.batch_index {
        1
    } else if kind_rank(a.kind) < kind_rank(b.kind) {
        -1
    } else if kind_rank(a.kind) > kind_rank(b.kind) {
        1
    } else {
        0
    }
}

pub open spec fn key_le(a: InternalKeyView, b: InternalKeyView) -> bool {
    key_order(a, b) <= 0
}

pub open spec fn key_lt(a: InternalKeyView, b: InternalKeyView) -> bool {
    key_order(a, b) < 0
}

/// `keys` is sorted in internal-key order.
pub open spec fn keys_sorted(keys: Seq<InternalKeyView>) -> bool {
    forall|i: int, j: int| 0 <= i < j < keys.len() ==> key_le(keys[i], keys[j])
}

/// Internal-key order is a total order: antisymmetric, zero exactly on equal
/// keys, and transitive.
pub proof fn lemma_key_order_antisym(a: InternalKeyView, b: InternalKeyView)
    ensures
        -1 <= key_order(a, b) <= 1,
        key_order(a, b) == -key_order(b, a),
        key_order(a, b) == 0 <==> a == b,
{
    lemma_bytes_order_properties(a.user_key, b.user_key);
}

pub proof fn lemma_key_order_trans(a: InternalKeyView, b: InternalKeyView, c: InternalKeyView)
    requires
        key_le(a, b),
        key_le(b, c),
    ensures
        key_le(a, c),
        key_lt(a, b) || key_lt(b, c) ==> key_lt(a, c),
{
    lemma_bytes_order_properties(a.user_key, b.user_key);
    lemma_bytes_order_properties(b.user_key, c.user_key);
    lemma_bytes_order_properties(a.user_key, c.user_key);
    if bytes_order(a.user_key, b.user_key) <= 0 && bytes_order(b.user_key, c.user_key) <= 0 {
        lemma_bytes_order_trans(a.user_key, b.user_key, c.user_key);
    }
}

impl InternalKey {
    #[must_use]
    pub fn new(user_key: Vec<u8>, sequence: Sequence, kind: ValueKind, batch_index: u32) -> (r: Self)
        ensures
            r@.user_key == user_key@,
            r@.sequence == sequence.spec_get(),
            r@.kind == kind,
            r@.batch_index == batch_index,
    {
        Self { user_key, sequence, kind, batch_index }
    }

    #[must_use]
    pub fn user_key(&self) -> (r: &[u8])
        ensures
            r@ == self@.user_key,
    {
        self.user_key.as_slice()
    }

    #[must_use]
    pub fn sequence(&self) -> (r: Sequence)
        ensures
            r.spec_get() == self@.sequence,
    {
        self.sequence
    }

    #[must_use]
    pub fn kind(&self) -> (r: ValueKind)
        ensures
            r == self@.kind,
    {
        self.kind
    }

    #[must_use]
    pub fn batch_index(&self) -> (r: u32)
        ensures
            r == self@.batch_index,
    {
        self.batch_index
    }

    /// A copy with the same view.
    pub fn duplicate(&self) -> (r: Self)
        ensures
            r@ == self@,
    {
        Self {
            user_key: crate::bytes::to_vec(self.user_key.as_slice()),
            sequence: self.sequence,
            kind: self.kind,
            batch_index: self.batch_index,
        }
    }
}

fn kind_rank_of(kind: ValueKind) -> (r: u8)
    ensures
        r as int == kind_rank(kind),
{
    match kind {
        ValueKind::Put => 0,
        ValueKind::PointDelete => 1,
        ValueKind::RangeDelete => 2,
    }
}

/// Compares two internal keys.
pub fn compare_internal_keys(a: &InternalKey, b: &InternalKey) -> (r: Order)
    ensures
        r.as_int() == key_order(a@, b@),
{
    match crate::bytes::compare_bytes(a.user_key(), b.user_key()) {
        Order::Less => return Order::Less,
        Order::Greater => return Order::Greater,
        Order::Equal => {},
    }
    let sa = a.sequence().get();
    let sb = b.sequence().get();
    if sa > sb {
        return Order::Less;
    }
    if sa < sb {
        return Order::Greater;
    }
    if a.batch_index() > b.batch_index() {
        return Order::Less;
    }
    if a.batch_index() < b.batch_index() {
        return Order::Greater;
    }
    let ka = kind_rank_of(a.kind());
    let kb = kind_rank_of(b.kind());
    if ka < kb {
        Order::Less
    } else if ka > kb {
        Order::Greater
    } else {
        Order::Equal
    }
}

/// `a` sorts strictly before `b`.
pub fn internal_key_less(a: &InternalKey, b: &InternalKey) -> (r: bool)
    ensures
        r == key_lt(a@, b@),
{
    match compare_internal_keys(a, b) {
        Order::Less => true,
        _ => false,
    }
}

/// The first internal key of a user key: every record of the key sorts at or
/// after it.
pub fn first_internal_key_for_user(user_key: &[u8]) -> (r: InternalKey)
    ensures
        r@ == (InternalKeyView {
            user_key: user_key@,
            sequence: u64::MAX,
            kind: ValueKind::Put,
            batch_index: u32::MAX,
        }),
        forall|k: InternalKeyView| k.user_key == user_key@ ==> key_le(r@, k),
{
    proof {
        assert forall|k: InternalKeyView| k.user_key == user_key@ implies bytes_order(user_key@, k.user_key) == 0 by {
            lemma_bytes_order_properties(user_key@, k.user_key);
        }
    }
    InternalKey::new(crate::bytes::to_vec(user_key), Sequence::new(u64::MAX), ValueKind::Put, u32::MAX)
}

/// The last internal key of a user key: every record of the key sorts at or
/// before it.
pub fn last_internal_key_for_user(user_key: &[u8]) -> (r: InternalKey)
    ensures
        r@ == (InternalKeyView {
            user_key: user_key@,
            sequence: 0,
            kind: ValueKind::RangeDelete,
            batch_index: 0,
        }),
        forall|k: InternalKeyView| k.user_key == user_key@ ==> key_le(k, r@),
{
    proof {
        assert forall|k: InternalKeyView| k.user_key == user_key@ implies bytes_order(k.user_key, user_key@) == 0 by {
            lemma_bytes_order_properties(k.user_key, user_key@);
        }
    }
    InternalKey::new(crate::bytes::to_vec(user_key), Sequence::zero(), ValueKind::RangeDelete, 0)
}

pub open spec fn key_views(keys: Seq<InternalKey>) -> Seq<InternalKeyView> {
    keys.map_values(|k: InternalKey| k@)
}

/// Sorts internal keys into internal-key order. The result holds the same
/// keys.
pub fn sort_internal_keys(keys: Vec<InternalKey>) -> (r: Vec<InternalKey>)
    ensures
        keys_sorted(key_views(r@)),
        r@.to_multiset() == keys@.to_multiset(),
{
    broadcast use vstd::seq_lib::group_to_multiset_ensures;

    let mut input = keys;
    let mut out: Vec<InternalKey> = Vec::new();
    while input.len() > 0
        invariant
            out@.to_multiset().add(input@.to_multiset()) == keys@.to_multiset(),
            keys_sorted(key_views(out@)),
            forall|i: int, j: int|
                0 <= i < out@.len() && 0 <= j < input@.len() ==> key_le(out@[i]@, input@[j]@),
        decreases input@.len(),
    {
        let mut best: usize = 0;
        let mut i: usize = 1;
        proof {
            lemma_key_order_antisym(input@[0]@, input@[0]@);
        }
        while i < input.len()
            invariant
                1 <= i <= input@.len(),
                best < input@.len(),
                forall|j: int| 0 <= j < i ==> key_le(input@[best as int]@, input@[j]@),
            decreases input@.len() - i,
        {
            proof {
                lemma_key_order_antisym(input@[best as int]@, input@[i as int]@);
            }
            if internal_key_less(&input[i], &input[best]) {
                proof {
                    lemma_key_order_antisym(input@[i as int]@, input@[i as int]@);
                    assert forall|j: int| 0 <= j <= i implies key_le(input@[i as int]@, input@[j]@) by {
                        if j < i {
                            lemma_key_order_trans(input@[i as int]@, input@[best as int]@, input@[j]@);
                        }
                    }
                }
                best = i;
            }
            i = i + 1;
        }
        let ghost before = input@;
        let ghost out_before = out@;
        let item = input.remove(best);
        proof {
            assert(input@ == before.remove(best as int));
            before.to_multiset_ensures();
            assert(before.remove(best as int).to_multiset() == before.to_multiset().remove(before[best as int]));
            assert forall|j: int| 0 <= j < input@.len() implies key_le(item@, input@[j]@) by {
                if j < best {
                    assert(input@[j] == before[j]);
                } else {
                    assert(input@[j] == before[j + 1]);
                }
            }
        }
        out.push(item);
        proof {
            assert(out@ == out_before.push(item));
            out_before.to_multiset_ensures();
            assert(out@.to_multiset() == out_before.to_multiset().insert(item));
            assert(out@.to_multiset().add(input@.to_multiset()) =~= keys@.to_multiset());
            assert(keys_sorted(key_views(out@))) by {
                assert forall|a: int, b: int| 0 <= a < b < key_views(out@).len()
                    implies key_le(key_views(out@)[a], key_views(out@)[b]) by {
                    if b == out@.len() - 1 {
                        assert(before.contains(item));
                        let k = choose|k: int| 0 <= k < before.len() && before[k] == item;
                        assert(key_le(out_before[a]@, before[k]@));
                    } else {
                        assert(key_views(out_before)[a] == key_views(out@)[a]);
                        assert(key_views(out_before)[b] == key_views(out@)[b]);
                    }
                }
            }
            assert forall|a: int, j: int| 0 <= a < out@.len() && 0 <= j < input@.len()
                implies key_le(out@[a]@, input@[j]@) by {
                if a < out_before.len() {
                    if j < best {
                        assert(input@[j] == before[j]);
                    } else {
                        assert(input@[j] == before[j + 1]);
                    }
                }
            }
        }
    }
    proof {
        assert(input@.to_multiset() =~= vstd::multiset::Multiset::empty());
        assert(out@.to_multiset().add(vstd::multiset::Multiset::empty()) =~= out@.to_multiset());
    }
    out
}

} // verus!
