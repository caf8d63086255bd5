//! Shared value types: commit sequences, key bounds and key ranges.

use vstd::prelude::*;

verus! {

/// Commit sequence number. Larger sequences are newer.
#[derive(Debug, Clone, Copy, PartialEq, Eq, Structural, PartialOrd, Ord, Hash)]
pub struct Sequence {
    value: u64,
}

impl Sequence {
    pub closed spec fn spec_get(self) -> u64 {
        self.value
    }

    /// The sequence with number `value`.
    pub closed spec fn from_spec(value: u64) -> Sequence {
        Sequence { value }
    }

    pub broadcast proof fn lemma_from_spec(value: u64)
        ensures
            #[trigger] Sequence::from_spec(value).spec_get() == value,
    {
    }

    /// Two sequences are equal exactly when their numbers are.
    pub broadcast proof fn lemma_sequence_eq(a: Sequence, b: Sequence)
        ensures
            #[trigger] a.spec_get() == #[trigger] b.spec_get() <==> a == b,
    {
    }

    #[must_use]
    pub fn new(value: u64) -> (r: Self)
        ensures
            r.spec_get() == value,
    {
        Self { value }
    }

    /// The sequence before any commit.
    #[must_use]
    pub fn zero() -> (r: Self)
        ensures
            r.spec_get() == 0,
    {
        Self { value: 0 }
    }

    #[must_use]
    #[verifier::when_used_as_spec(spec_get)]
    pub fn get(self) -> (r: u64)
        ensures
            r == self.spec_get(),
    {
        self.value
    }
}

/// One end of a key range.
#[derive(Debug, Clone, PartialEq, Eq, Hash)]
pub enum Bound<T> {
    Included(T),
    Excluded(T),
    Unbounded,
}

/// A range of user keys.
#[derive(Debug, Clone, PartialEq, Eq, Hash)]
pub struct KeyRange {
    pub start: Bound<Vec<u8>>,
    pub end: Bound<Vec<u8>>,
}

/// A key bound with its bytes taken as a sequence.
pub enum SpecBound {
    Included(Seq<u8>),
    Excluded(Seq<u8>),
    Unbounded,
}

pub open spec fn bound_view(bound: Bound<Vec<u8>>) -> SpecBound {
    match bound {
        Bound::Included(key) => SpecBound::Included(key@),
        Bound::Excluded(key) => SpecBound::Excluded(key@),
        Bound::Unbounded => SpecBound::Unbounded,
    }
}

impl KeyRange {
    pub open spec fn start_view(self) -> SpecBound {
        bound_view(self.start)
    }

    pub open spec fn end_view(self) -> SpecBound {
        bound_view(self.end)
    }

    pub open spec fn spec_all() -> KeyRange {
        KeyRange { start: Bound::Unbounded, end: Bound::Unbounded }
    }

    /// The range of every key.
    #[must_use]
    pub fn all() -> (r: Self)
        ensures
            r.start is Unbounded,
            r.end is Unbounded,
            r == KeyRange::spec_all(),
    {
        Self { start: Bound::Unbounded, end: Bound::Unbounded }
    }

    /// The keys `k` with `start <= k < end`.
    #[must_use]
    pub fn half_open(start: &[u8], end: &[u8]) -> (r: Self)
        ensures
            r.start_view() == SpecBound::Included(start@),
            r.end_view() == SpecBound::Excluded(end@),
    {
        Self {
            start: Bound::Included(crate::bytes::to_vec(start)),
            end: Bound::Excluded(crate::bytes::to_vec(end)),
        }
    }

    /// The keys `k` with `start <= k <= end`.
    #[must_use]
    pub fn inclusive(start: &[u8], end: &[u8]) -> (r: Self)
        ensures
            r.start_view() == SpecBound::Included(start@),
            r.end_view() == SpecBound::Included(end@),
    {
        Self {
            start: Bound::Included(crate::bytes::to_vec(start)),
            end: Bound::Included(crate::bytes::to_vec(end)),
        }
    }
}

/// Clones a byte-key bound.
pub fn clone_bound(bound: &Bound<Vec<u8>>) -> (r: Bound<Vec<u8>>)
    ensures
        bound_view(r) == bound_view(*bound),
{
    match bound {
        Bound::Included(key) => Bound::Included(crate::bytes::to_vec(key.as_slice())),
        Bound::Excluded(key) => Bound::Excluded(crate::bytes::to_vec(key.as_slice())),
        Bound::Unbounded => Bound::Unbounded,
    }
}

/// Clones a key range.
pub fn clone_range(range: &KeyRange) -> (r: KeyRange)
    ensures
        r.start_view() == range.start_view(),
        r.end_view() == range.end_view(),
{
    KeyRange { start: clone_bound(&range.start), end: clone_bound(&range.end) }
}

} // verus!
