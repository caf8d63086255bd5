//! Bloom filters over keys and key prefixes. A filter built from a set of
//! items answers "maybe" for every one of them.

use vstd::prelude::*;
use crate::error::{Error, ErrorKind, Result};
use crate::prefix::PrefixExtractor;

verus! {

pub const MAX_BLOOM_HASH_COUNT: u8 = 30;
pub const FNV_OFFSET_A: u64 = 0xcbf2_9ce4_8422_2325;
pub const FNV_OFFSET_B: u64 = 0x8422_2325_cbf2_9ce4;
pub const FNV_PRIME: u64 = 0x0000_0100_0000_01b3;

/// What a filter is built over.
#[derive(Debug, Clone, Copy, PartialEq, Eq, Structural)]
pub enum FilterKind {
    PointKey,
    Prefix,
}

/// How a table's prefix filter was built.
#[derive(Debug, Clone, PartialEq, Eq)]
pub struct PrefixFilterDescriptor {
    pub extractor: PrefixExtractor,
    pub partitioned: bool,
}

// ---------------------------------------------------------------- hashing

/// 64-bit FNV-1a of `bytes` from the given seed.
pub open spec fn fnv64(seed: u64, bytes: Seq<u8>) -> u64
    decreases bytes.len(),
{
    if bytes.len() == 0 {
        seed
    } else {
        vstd::wrapping::u64_specs::wrapping_mul(
            fnv64(seed, bytes.drop_last()) ^ (bytes.last() as u64),
            FNV_PRIME,
        )
    }
}

/// The `i`-th bit probed for `item` in a filter of `bit_count` bits: double
/// hashing with two FNV-1a hashes, the second made odd.
#[verifier::opaque]
pub open spec fn probe(item: Seq<u8>, bit_count: u64, i: int) -> u64 {
    let a = fnv64(FNV_OFFSET_A, item);
    let b = fnv64(FNV_OFFSET_B, item) | 1;
    (vstd::wrapping::u64_specs::wrapping_add(
        a,
        vstd::wrapping::u64_specs::wrapping_mul(i as u64, b),
    ) % bit_count) as u64
}

proof fn lemma_probe_bound(item: Seq<u8>, bit_count: u64, i: int)
    requires
        bit_count > 0,
    ensures
        probe(item, bit_count, i) < bit_count,
{
    reveal(probe);
}

/// Bit `idx` is set in `bytes` (bit `idx % 8` of byte `idx / 8`).
#[verifier::opaque]
pub open spec fn bit_set(bytes: Seq<u8>, idx: u64) -> bool {
    bytes[(idx / 8) as int] & (1u8 << ((idx % 8) as u8)) != 0
}

/// `idx` is one of the bits probed for `item`.
pub open spec fn probed(item: Seq<u8>, bit_count: u64, hash_count: u8, idx: u64) -> bool {
    exists|i: int| 0 <= i < hash_count && idx == #[trigger] probe(item, bit_count, i)
}

fn bloom_hash(seed: u64, item: &[u8]) -> (r: u64)
    ensures
        r == fnv64(seed, item@),
{
    let mut hash = seed;
    let mut i: usize = 0;
    while i < item.len()
        invariant
            i <= item@.len(),
            hash == fnv64(seed, item@.take(i as int)),
        decreases item@.len() - i,
    {
        proof {
            assert(item@.take(i + 1).drop_last() =~= item@.take(i as int));
        }
        hash = (hash ^ (item[i] as u64)).wrapping_mul(FNV_PRIME);
        i = i + 1;
    }
    proof {
        assert(item@.take(item@.len() as int) =~= item@);
    }
    hash
}

/// Hash functions for `bits_per_item` bits per item: `0.69` per bit,
/// between 1 and `MAX_BLOOM_HASH_COUNT`.
pub open spec fn hash_count_for(bits_per_item: u8) -> u8 {
    let h = (bits_per_item * 69) / 100;
    if h < 1 {
        1
    } else if h > MAX_BLOOM_HASH_COUNT {
        MAX_BLOOM_HASH_COUNT
    } else {
        h as u8
    }
}

pub fn bloom_hash_count(bits_per_item: u8) -> (r: u8)
    ensures
        r == hash_count_for(bits_per_item),
{
    let scaled = (bits_per_item as u16) * 69 / 100;
    if scaled < 1 {
        1
    } else if scaled > MAX_BLOOM_HASH_COUNT as u16 {
        MAX_BLOOM_HASH_COUNT
    } else {
        scaled as u8
    }
}

/// Bytes needed for `bit_count` bits.
pub open spec fn byte_len_for(bit_count: u64) -> nat {
    if bit_count > u64::MAX - 7 {
        (u64::MAX / 8) as nat
    } else {
        ((bit_count + 7) / 8) as nat
    }
}

proof fn lemma_bit_in_bytes(bit_count: u64, idx: u64)
    requires
        idx < bit_count,
        bit_count <= u64::MAX - 7,
    ensures
        (idx / 8) < byte_len_for(bit_count),
{
}

proof fn lemma_or_bit(b: u8, k: u8, j: u8)
    requires
        k < 8,
        j < 8,
    ensures
        ((b | (1u8 << k)) & (1u8 << j) != 0) <==> ((b & (1u8 << j) != 0) || j == k),
{
    assert(((b | (1u8 << k)) & (1u8 << j) != 0) <==> ((b & (1u8 << j) != 0) || j == k))
        by (bit_vector)
        requires
            k < 8,
            j < 8,
    ;
}

/// Setting bit `bit_index` changes that bit and no other.
proof fn lemma_set_bit(before: Seq<u8>, after: Seq<u8>, bit_count: u64, bit_index: u64)
    requires
        bit_index < bit_count,
        bit_count <= u64::MAX - 7,
        before.len() == byte_len_for(bit_count),
        after == before.update(
            (bit_index / 8) as int,
            before[(bit_index / 8) as int] | (1u8 << ((bit_index % 8) as u8)),
        ),
    ensures
        forall|idx: u64|
            idx < bit_count ==> (#[trigger] bit_set(after, idx) <==> (bit_set(before, idx) || idx
                == bit_index)),
{
    reveal(bit_set);
    assert forall|idx: u64| idx < bit_count implies (#[trigger] bit_set(after, idx) <==> (bit_set(
        before,
        idx,
    ) || idx == bit_index)) by {
        lemma_bit_in_bytes(bit_count, idx);
        if idx / 8 == bit_index / 8 {
            lemma_or_bit(
                before[(bit_index / 8) as int],
                (bit_index % 8) as u8,
                (idx % 8) as u8,
            );
        }
    }
}

/// One more probe of an insertion sets one more probed bit.
proof fn lemma_insert_step(start: Seq<u8>, before: Seq<u8>, after: Seq<u8>, item: Seq<u8>, bit_count: u64, index: int)
    requires
        0 <= index,
        forall|idx: u64|
            idx < bit_count ==> (#[trigger] bit_set(before, idx) <==> (bit_set(start, idx) || exists|i: int|
                0 <= i < index && idx == #[trigger] probe(item, bit_count, i))),
        forall|idx: u64|
            idx < bit_count ==> (#[trigger] bit_set(after, idx) <==> (bit_set(before, idx) || idx
                == probe(item, bit_count, index))),
    ensures
        forall|idx: u64|
            idx < bit_count ==> (#[trigger] bit_set(after, idx) <==> (bit_set(start, idx) || exists|i: int|
                0 <= i < index + 1 && idx == #[trigger] probe(item, bit_count, i))),
{
    assert forall|idx: u64| idx < bit_count implies (#[trigger] bit_set(after, idx) <==> (bit_set(
        start,
        idx,
    ) || exists|i: int| 0 <= i < index + 1 && idx == #[trigger] probe(item, bit_count, i))) by {
        assert(bit_set(after, idx) <==> (bit_set(before, idx) || idx == probe(item, bit_count, index)));
        assert(bit_set(before, idx) <==> (bit_set(start, idx) || exists|i: int|
            0 <= i < index && idx == #[trigger] probe(item, bit_count, i)));
        if idx == probe(item, bit_count, index) {
            assert(0 <= index < index + 1 && idx == probe(item, bit_count, index));
        }
        if exists|i: int| 0 <= i < index + 1 && idx == #[trigger] probe(item, bit_count, i) {
            let i = choose|i: int| 0 <= i < index + 1 && idx == #[trigger] probe(item, bit_count, i);
            if i < index {
                assert(bit_set(before, idx));
            }
        }
        if bit_set(before, idx) && !bit_set(start, idx) {
            let i = choose|i: int| 0 <= i < index && idx == #[trigger] probe(item, bit_count, i);
            assert(0 <= i < index + 1);
        }
    }
}

/// No bit is set in zeroed bytes.
proof fn lemma_zero_bits(bytes: Seq<u8>, bit_count: u64)
    requires
        bit_count <= u64::MAX - 7,
        bytes.len() == byte_len_for(bit_count),
        forall|i: int| 0 <= i < bytes.len() ==> bytes[i] == 0,
    ensures
        forall|idx: u64| idx < bit_count ==> !#[trigger] bit_set(bytes, idx),
{
    reveal(bit_set);
    assert forall|idx: u64| idx < bit_count implies !#[trigger] bit_set(bytes, idx) by {
        lemma_bit_in_bytes(bit_count, idx);
        let j = (idx % 8) as u8;
        assert(0u8 & (1u8 << j) == 0) by (bit_vector);
    }
}

// ---------------------------------------------------------------- bloom bits

/// A bloom filter: `bit_count` bits in `bytes`, probed `hash_count` times.
#[derive(Debug, Clone, PartialEq, Eq)]
pub struct BloomBits {
    bit_count: u64,
    hash_count: u8,
    bytes: Vec<u8>,
}

impl BloomBits {
    pub closed spec fn spec_bit_count(&self) -> u64 {
        self.bit_count
    }

    pub closed spec fn spec_hash_count(&self) -> u8 {
        self.hash_count
    }

    pub closed spec fn spec_bytes(&self) -> Seq<u8> {
        self.bytes@
    }

    /// The bytes hold exactly the bits; an empty filter has no hash
    /// functions and a non-empty one at least one.
    pub open spec fn well_formed(&self) -> bool {
        &&& self.spec_bit_count() <= u64::MAX - 7
        &&& self.spec_bytes().len() == byte_len_for(self.spec_bit_count())
        &&& self.spec_bytes().len() <= usize::MAX
        &&& self.spec_hash_count() <= MAX_BLOOM_HASH_COUNT
        &&& self.spec_bit_count() == 0 ==> self.spec_hash_count() == 0
        &&& self.spec_bit_count() != 0 ==> self.spec_hash_count() >= 1
    }

    /// The filter answers "maybe" for `item`: it is not empty and every bit
    /// probed for `item` is set.
    pub open spec fn holds(&self, item: Seq<u8>) -> bool {
        &&& self.spec_bit_count() != 0
        &&& forall|i: int|
            0 <= i < self.spec_hash_count() ==> bit_set(
                self.spec_bytes(),
                #[trigger] probe(item, self.spec_bit_count(), i),
            )
    }

    fn empty() -> (r: Self)
        ensures
            r.well_formed(),
            r.spec_bit_count() == 0,
            r.spec_hash_count() == 0,
            r.spec_bytes().len() == 0,
    {
        Self { bit_count: 0, hash_count: 0, bytes: Vec::new() }
    }

    /// Builds a filter over `items` with `bits_per_item` bits per item (at
    /// least one bit in all), and inserts every item.
    pub fn from_items(items: &[&[u8]], bits_per_item: u8) -> (r: Self)
        requires
            items@.len() * bits_per_item <= u64::MAX - 7,
            byte_len_for((items@.len() * bits_per_item) as u64) <= usize::MAX,
        ensures
            r.well_formed(),
            items@.len() == 0 ==> r.spec_bit_count() == 0 && r.spec_hash_count() == 0,
            items@.len() > 0 ==> {
                &&& r.spec_bit_count() == if items@.len() * bits_per_item == 0 {
                    1
                } else {
                    items@.len() * bits_per_item
                }
                &&& r.spec_hash_count() == hash_count_for(bits_per_item)
                &&& forall|idx: u64|
                    idx < r.spec_bit_count() ==> (bit_set(r.spec_bytes(), idx) <==> exists|k: int|
                        0 <= k < items@.len() && #[trigger] probed(
                            items@[k]@,
                            r.spec_bit_count(),
                            r.spec_hash_count(),
                            idx,
                        ))
            },
            forall|k: int| 0 <= k < items@.len() ==> r.holds(#[trigger] items@[k]@),
    {
        if items.len() == 0 {
            return Self::empty();
        }
        let count = items.len() as u64;
        let mut bit_count = count * (bits_per_item as u64);
        if bit_count < 1 {
            bit_count = 1;
        }
        let hash_count = bloom_hash_count(bits_per_item);
        let byte_len = ((bit_count + 7) / 8) as usize;
        let mut bloom = Self { bit_count, hash_count, bytes: vec![0u8; byte_len] };
        proof {
            lemma_zero_bits(bloom.bytes@, bit_count);
        }
        let mut i: usize = 0;
        while i < items.len()
            invariant
                i <= items@.len(),
                bloom.well_formed(),
                bloom.spec_bit_count() == bit_count,
                bloom.spec_hash_count() == hash_count,
                bit_count != 0,
                hash_count >= 1,
                forall|idx: u64|
                    idx < bit_count ==> (bit_set(bloom.spec_bytes(), idx) <==> exists|k: int|
                        0 <= k < i && #[trigger] probed(items@[k]@, bit_count, hash_count, idx)),
            decreases items@.len() - i,
        {
            let ghost before = bloom.spec_bytes();
            bloom.insert(items[i]);
            proof {
                assert forall|idx: u64| idx < bit_count implies (bit_set(bloom.spec_bytes(), idx)
                    <==> exists|k: int|
                    0 <= k < i + 1 && #[trigger] probed(items@[k]@, bit_count, hash_count, idx)) by {
                    if bit_set(bloom.spec_bytes(), idx) {
                        if bit_set(before, idx) {
                            let k = choose|k: int|
                                0 <= k < i && #[trigger] probed(items@[k]@, bit_count, hash_count, idx);
                            assert(0 <= k < i + 1 && probed(items@[k]@, bit_count, hash_count, idx));
                        } else {
                            assert(probed(items@[i as int]@, bit_count, hash_count, idx));
                        }
                    }
                    if exists|k: int|
                        0 <= k < i + 1 && #[trigger] probed(items@[k]@, bit_count, hash_count, idx) {
                        let k = choose|k: int|
                            0 <= k < i + 1 && #[trigger] probed(items@[k]@, bit_count, hash_count, idx);
                        if k < i {
                            assert(bit_set(before, idx));
                        }
                    }
                }
            }
            i = i + 1;
        }
        proof {
            assert forall|k: int| 0 <= k < items@.len() implies bloom.holds(#[trigger] items@[k]@) by {
                assert forall|h: int| 0 <= h < hash_count implies bit_set(
                    bloom.spec_bytes(),
                    #[trigger] probe(items@[k]@, bit_count, h),
                ) by {
                    let idx = probe(items@[k]@, bit_count, h);
                    lemma_probe_bound(items@[k]@, bit_count, h);
                    assert(probed(items@[k]@, bit_count, hash_count, idx));
                }
            }
        }
        bloom
    }

    /// Rebuilds a filter from its stored parts, checking that they agree.
    pub fn from_parts(bit_count: u64, hash_count: u8, bytes: Vec<u8>) -> (r: Result<Self>)
        ensures
            match r {
                Ok(b) => {
                    &&& b.well_formed()
                    &&& b.spec_bit_count() == bit_count
                    &&& b.spec_hash_count() == hash_count
                    &&& b.spec_bytes() == bytes@
                },
                Err(e) => e.kind() == ErrorKind::InvalidFormat && !parts_valid(
                    bit_count,
                    hash_count,
                    bytes@,
                ),
            },
            r is Ok <==> parts_valid(bit_count, hash_count, bytes@),
            r matches Err(e) ==> e.message_view() == parts_error(bit_count, hash_count, bytes@),
    {
        let expected_len = match bloom_byte_len(bit_count) {
            Ok(len) => len,
            Err(e) => return Err(e),
        };
        if bytes.len() != expected_len || bit_count > u64::MAX - 7 {
            return Err(Error::invalid_format("bloom filter byte length does not match bit count"));
        }
        if bit_count == 0 {
            if hash_count != 0 || bytes.len() != 0 {
                return Err(Error::invalid_format("empty bloom filter has non-empty metadata"));
            }
        } else if hash_count == 0 || hash_count > MAX_BLOOM_HASH_COUNT {
            return Err(Error::invalid_format("invalid bloom filter hash count"));
        }
        Ok(Self { bit_count, hash_count, bytes })
    }

    pub fn bit_count(&self) -> (r: u64)
        ensures
            r == self.spec_bit_count(),
    {
        self.bit_count
    }

    pub fn hash_count(&self) -> (r: u8)
        ensures
            r == self.spec_hash_count(),
    {
        self.hash_count
    }

    pub fn bytes(&self) -> (r: &[u8])
        ensures
            r@ == self.spec_bytes(),
    {
        self.bytes.as_slice()
    }

    /// Sets every bit probed for `item`; no bit is cleared.
    pub fn insert(&mut self, item: &[u8])
        requires
            old(self).well_formed(),
        ensures
            final(self).well_formed(),
            final(self).spec_bit_count() == old(self).spec_bit_count(),
            final(self).spec_hash_count() == old(self).spec_hash_count(),
            forall|idx: u64|
                idx < old(self).spec_bit_count() ==> (bit_set(final(self).spec_bytes(), idx) <==> (
                bit_set(old(self).spec_bytes(), idx) || probed(
                    item@,
                    old(self).spec_bit_count(),
                    old(self).spec_hash_count(),
                    idx,
                ))),
    {
        if self.bit_count == 0 {
            return;
        }
        let bit_count = self.bit_count;
        let hash_count = self.hash_count;
        let hash_a = bloom_hash(FNV_OFFSET_A, item);
        let hash_b = bloom_hash(FNV_OFFSET_B, item) | 1;
        let ghost start = self.bytes@;
        let mut index: u8 = 0;
        while index < hash_count
            invariant
                self.well_formed(),
                self.bit_count == bit_count,
                self.hash_count == hash_count,
                bit_count != 0,
                index <= hash_count,
                hash_a == fnv64(FNV_OFFSET_A, item@),
                hash_b == fnv64(FNV_OFFSET_B, item@) | 1,
                forall|idx: u64|
                    idx < bit_count ==> (bit_set(self.bytes@, idx) <==> (bit_set(start, idx)
                        || exists|i: int| 0 <= i < index && idx == #[trigger] probe(item@, bit_count, i))),
            decreases hash_count - index,
        {
            let bit_index = hash_a.wrapping_add((index as u64).wrapping_mul(hash_b)) % bit_count;
            assert(bit_index == probe(item@, bit_count, index as int)) by {
                reveal(probe);
            }
            proof {
                lemma_bit_in_bytes(bit_count, bit_index);
            }
            let byte_index = (bit_index / 8) as usize;
            let bit_offset = (bit_index % 8) as u8;
            let ghost before = self.bytes@;
            let byte = self.bytes[byte_index];
            self.bytes.set(byte_index, byte | (1u8 << bit_offset));
            proof {
                lemma_set_bit(before, self.bytes@, bit_count, bit_index);
                lemma_insert_step(start, before, self.bytes@, item@, bit_count, index as int);
            }
            index = index + 1;
        }
    }

    /// Whether `item` may have been inserted: never false for an item that
    /// was.
    pub fn may_contain(&self, item: &[u8]) -> (r: bool)
        requires
            self.well_formed(),
        ensures
            r == self.holds(item@),
    {
        if self.bit_count == 0 {
            return false;
        }
        let bit_count = self.bit_count;
        let hash_a = bloom_hash(FNV_OFFSET_A, item);
        let hash_b = bloom_hash(FNV_OFFSET_B, item) | 1;
        let mut index: u8 = 0;
        while index < self.hash_count
            invariant
                self.well_formed(),
                bit_count == self.bit_count,
                bit_count != 0,
                index <= self.hash_count,
                hash_a == fnv64(FNV_OFFSET_A, item@),
                hash_b == fnv64(FNV_OFFSET_B, item@) | 1,
                forall|i: int| 0 <= i < index ==> bit_set(self.bytes@, #[trigger] probe(item@, bit_count, i)),
            decreases self.hash_count - index,
        {
            let bit_index = hash_a.wrapping_add((index as u64).wrapping_mul(hash_b)) % bit_count;
            assert(bit_index == probe(item@, bit_count, index as int)) by {
                reveal(probe);
            }
            proof {
                lemma_bit_in_bytes(bit_count, bit_index);
            }
            let byte_index = (bit_index / 8) as usize;
            let bit_offset = (bit_index % 8) as u8;
            assert(bit_set(self.bytes@, bit_index) == (self.bytes@[byte_index as int] & (1u8
                << bit_offset) != 0)) by {
                reveal(bit_set);
            }
            if self.bytes[byte_index] & (1u8 << bit_offset) == 0 {
                return false;
            }
            index = index + 1;
        }
        true
    }
}

/// The stored parts agree: the byte length fits the bit count, an empty
/// filter has no hash functions and no bytes, and a non-empty one between 1
/// and `MAX_BLOOM_HASH_COUNT`.
pub open spec fn parts_valid(bit_count: u64, hash_count: u8, bytes: Seq<u8>) -> bool {
    &&& byte_len_for(bit_count) <= usize::MAX
    &&& bytes.len() == byte_len_for(bit_count)
    &&& bit_count <= u64::MAX - 7
    &&& bit_count == 0 ==> hash_count == 0 && bytes.len() == 0
    &&& bit_count != 0 ==> 1 <= hash_count <= MAX_BLOOM_HASH_COUNT
}

/// The message of the first check that the parts fail.
pub open spec fn parts_error(bit_count: u64, hash_count: u8, bytes: Seq<u8>) -> Seq<char> {
    if byte_len_for(bit_count) > usize::MAX {
        "bloom filter bit count exceeds this platform"@
    } else if bytes.len() != byte_len_for(bit_count) || bit_count > u64::MAX - 7 {
        "bloom filter byte length does not match bit count"@
    } else if bit_count == 0 {
        "empty bloom filter has non-empty metadata"@
    } else {
        "invalid bloom filter hash count"@
    }
}

fn bloom_byte_len(bit_count: u64) -> (r: Result<usize>)
    ensures
        match r {
            Ok(len) => len == byte_len_for(bit_count),
            Err(e) => byte_len_for(bit_count) > usize::MAX && e.kind() == ErrorKind::InvalidFormat
                && e.message_view() == "bloom filter bit count exceeds this platform"@,
        },
{
    let byte_len = bit_count.saturating_add(7) / 8;
    if byte_len > usize::MAX as u64 {
        return Err(Error::invalid_format("bloom filter bit count exceeds this platform"));
    }
    Ok(byte_len as usize)
}

// ---------------------------------------------------------------- filters

/// A bloom filter over the user keys of a table.
#[derive(Debug, Clone, PartialEq, Eq)]
pub struct PointKeyFilter {
    bloom: BloomBits,
}

impl PointKeyFilter {
    pub open spec fn well_formed(&self) -> bool {
        self.bloom().well_formed()
    }

    pub closed spec fn bloom(&self) -> BloomBits {
        self.bloom
    }

    /// Builds a filter that answers "maybe" for every key given.
    pub fn from_keys(keys: &[&[u8]], bits_per_key: u8) -> (r: Self)
        requires
            keys@.len() * bits_per_key <= u64::MAX - 7,
            byte_len_for((keys@.len() * bits_per_key) as u64) <= usize::MAX,
        ensures
            r.well_formed(),
            keys@.len() == 0 ==> r.bloom().spec_bit_count() == 0,
            keys@.len() > 0 ==> r.bloom().spec_bit_count() == if keys@.len() * bits_per_key == 0 {
                1
            } else {
                keys@.len() * bits_per_key
            } && r.bloom().spec_hash_count() == hash_count_for(bits_per_key),
            forall|k: int| 0 <= k < keys@.len() ==> r.bloom().holds(#[trigger] keys@[k]@),
            keys@.len() > 0 ==> forall|idx: u64|
                idx < r.bloom().spec_bit_count() ==> (bit_set(r.bloom().spec_bytes(), idx) <==> exists|k: int|
                    0 <= k < keys@.len() && #[trigger] probed(
                        keys@[k]@,
                        r.bloom().spec_bit_count(),
                        r.bloom().spec_hash_count(),
                        idx,
                    )),
    {
        Self { bloom: BloomBits::from_items(keys, bits_per_key) }
    }

    pub fn from_parts(bit_count: u64, hash_count: u8, bytes: Vec<u8>) -> (r: Result<Self>)
        ensures
            r is Ok <==> parts_valid(bit_count, hash_count, bytes@),
            r matches Ok(f) ==> f.well_formed() && f.bloom().spec_bit_count() == bit_count
                && f.bloom().spec_hash_count() == hash_count && f.bloom().spec_bytes() == bytes@,
            r matches Err(e) ==> e.kind() == ErrorKind::InvalidFormat && e.message_view()
                == parts_error(bit_count, hash_count, bytes@),
    {
        match BloomBits::from_parts(bit_count, hash_count, bytes) {
            Ok(bloom) => Ok(Self { bloom }),
            Err(e) => Err(e),
        }
    }

    pub fn bit_count(&self) -> (r: u64)
        ensures
            r == self.bloom().spec_bit_count(),
    {
        self.bloom.bit_count()
    }

    pub fn hash_count(&self) -> (r: u8)
        ensures
            r == self.bloom().spec_hash_count(),
    {
        self.bloom.hash_count()
    }

    pub fn bytes(&self) -> (r: &[u8])
        ensures
            r@ == self.bloom().spec_bytes(),
    {
        self.bloom.bytes()
    }

    pub fn may_contain_key(&self, key: &[u8]) -> (r: bool)
        requires
            self.well_formed(),
        ensures
            r == self.bloom().holds(key@),
    {
        self.bloom.may_contain(key)
    }
}

/// A bloom filter over the key prefixes of a table.
#[derive(Debug, Clone, PartialEq, Eq)]
pub struct PrefixFilter {
    extractor: PrefixExtractor,
    bloom: BloomBits,
}

impl PrefixFilter {
    pub open spec fn well_formed(&self) -> bool {
        self.bloom().well_formed()
    }

    pub closed spec fn bloom(&self) -> BloomBits {
        self.bloom
    }

    pub closed spec fn spec_extractor(&self) -> PrefixExtractor {
        self.extractor
    }

    pub fn from_parts(extractor: PrefixExtractor, bit_count: u64, hash_count: u8, bytes: Vec<u8>) -> (r: Result<Self>)
        ensures
            r is Ok <==> parts_valid(bit_count, hash_count, bytes@),
            r matches Ok(f) ==> f.well_formed() && f.spec_extractor() == extractor
                && f.bloom().spec_bit_count() == bit_count && f.bloom().spec_hash_count()
                == hash_count && f.bloom().spec_bytes() == bytes@,
            r matches Err(e) ==> e.kind() == ErrorKind::InvalidFormat && e.message_view()
                == parts_error(bit_count, hash_count, bytes@),
    {
        match BloomBits::from_parts(bit_count, hash_count, bytes) {
            Ok(bloom) => Ok(Self { extractor, bloom }),
            Err(e) => Err(e),
        }
    }

    pub fn extractor(&self) -> (r: &PrefixExtractor)
        ensures
            *r == self.spec_extractor(),
    {
        &self.extractor
    }

    pub fn bit_count(&self) -> (r: u64)
        ensures
            r == self.bloom().spec_bit_count(),
    {
        self.bloom.bit_count()
    }

    pub fn hash_count(&self) -> (r: u8)
        ensures
            r == self.bloom().spec_hash_count(),
    {
        self.bloom.hash_count()
    }

    pub fn bytes(&self) -> (r: &[u8])
        ensures
            r@ == self.bloom().spec_bytes(),
    {
        self.bloom.bytes()
    }

    pub fn may_contain_prefix(&self, prefix: &[u8]) -> (r: bool)
        requires
            self.well_formed(),
        ensures
            r == self.bloom().holds(prefix@),
    {
        self.bloom.may_contain(prefix)
    }
}

/// A filter rebuilt from the parts of another answers as the original did.
pub proof fn lemma_parts_round_trip(filter: BloomBits, item: Seq<u8>, rebuilt: BloomBits)
    requires
        filter.well_formed(),
        rebuilt.spec_bit_count() == filter.spec_bit_count(),
        rebuilt.spec_hash_count() == filter.spec_hash_count(),
        rebuilt.spec_bytes() == filter.spec_bytes(),
    ensures
        rebuilt.holds(item) == filter.holds(item),
        parts_valid(filter.spec_bit_count(), filter.spec_hash_count(), filter.spec_bytes()),
{
}

} // verus!
