//! A fast set of widget identifiers, used to track child widgets.
//!
//! It consists of a simple Bloom filter guarding a full set. The filter is
//! purely an optimization for negative lookups: the externally observable
//! [`FastSet::contains`] result is always exact.

use vstd::prelude::*;
use std::collections::HashSet;
use fnv::FnvHasher;

verus! {

broadcast use vstd::std_specs::hash::group_hash_axioms;

/// Width of the Bloom filter, in bits.
pub const NUM_BITS: u64 = 64;

/// The `offset_basis` for the FNV-1a hash algorithm. The first of these is
/// the one described in the algorithm, the second is random.
pub const OFFSET_ONE: u64 = 0xcbf2_9ce4_8422_2325;

/// Seed of the second, independent hash function of the filter.
pub const OFFSET_TWO: u64 = 0xe10_3ad8_2dad_8028;

/// The FNV-1a digest of `item`'s eight little-endian bytes, starting from
/// the state `seed`.
pub uninterp spec fn fnv_hash(seed: u64, item: u64) -> u64;

/// Relies on `fnv::FnvHasher` (`with_key`, `write`, `finish`): the FNV-1a
/// digest over the bytes written, here the item's eight little-endian
/// bytes, a pure function of the seed and the item.
#[verifier::external_body]
fn fnv_digest(item: u64, seed: u64) -> (r: u64)
    ensures
        r == fnv_hash(seed, item),
{
    let mut hasher = FnvHasher::with_key(seed);
    std::hash::Hasher::write(&mut hasher, &item.to_le_bytes());
    std::hash::Hasher::finish(&hasher)
}

/// The two filter bits an item sets: one from each of two independent
/// hash functions, which performs better than a single hash for the small
/// item counts typical near the leaves of a widget tree.
pub open spec fn mask_spec(item: u64) -> u64 {
    (1u64 << (fnv_hash(OFFSET_ONE, item) % NUM_BITS)) | (1u64 << (fnv_hash(
        OFFSET_TWO,
        item,
    ) % NUM_BITS))
}

/// A fast set optimized for small values.
///
/// `bits` is the Bloom filter; `set` is the exact backing set; `items`
/// mirrors `set` as a duplicate-free list so the set can be iterated.
pub struct FastSet {
    bits: u64,
    set: HashSet<u64>,
    items: Vec<u64>,
}

impl View for FastSet {
    type V = Set<u64>;

    closed spec fn view(&self) -> Set<u64> {
        self.set@
    }
}

impl FastSet {
    /// Every element's two filter bits are set (so the filter never gives
    /// a false negative), and the item list mirrors the backing set.
    #[verifier::type_invariant]
    closed spec fn wf(self) -> bool {
        &&& forall|e: u64|
            #[trigger] self.set@.contains(e) ==> self.bits & mask_spec(e) == mask_spec(e)
        &&& self.items@.to_set() == self.set@
        &&& self.items@.no_duplicates()
    }

    /// Whether the Bloom filter accepts `item`.
    pub closed spec fn bloom_spec(self, item: u64) -> bool {
        self.bits & mask_spec(item) == mask_spec(item)
    }

    /// Create a new empty set.
    pub fn new() -> (r: FastSet)
        ensures
            r@ == Set::<u64>::empty(),
    {
        let set: HashSet<u64> = HashSet::new();
        let items: Vec<u64> = Vec::new();
        proof {
            assert(items@.to_set() =~= set@);
        }
        FastSet { bits: 0, set, items }
    }

    /// Returns the number of entries in the set.
    pub fn len(&self) -> (r: usize)
        ensures
            r == self@.len(),
    {
        proof {
            use_type_invariant(self);
            self.items@.unique_seq_to_set();
        }
        self.items.len()
    }

    /// Remove all entries from the set.
    pub fn clear(&mut self)
        ensures
            final(self)@ == Set::<u64>::empty(),
    {
        *self = FastSet::new();
    }

    /// Add an item to the set.
    pub fn add(&mut self, item: u64)
        ensures
            final(self)@ == old(self)@.insert(item),
    {
        proof {
            use_type_invariant(&*self);
        }
        let mask = self.make_bit_mask(&item);
        let mut tmp = FastSet::new();
        std::mem::swap(self, &mut tmp);
        let FastSet { bits, mut set, mut items } = tmp;
        let ghost pre_set = set@;
        let ghost pre_items = items@;
        let ghost pre_bits = bits;
        let newly = set.insert(item);
        if newly {
            items.push(item);
        }
        let new_bits = bits | mask;
        proof {
            lemma_or_mask_sets(pre_bits, mask_spec(item));
            assert forall|e: u64| #[trigger] set@.contains(e) implies new_bits & mask_spec(e)
                == mask_spec(e) by {
                if e != item {
                    lemma_or_preserves(pre_bits, mask_spec(item), mask_spec(e));
                }
            }
            if newly {
                assert(items@.to_set() =~= set@) by {
                    assert forall|x: u64| items@.to_set().contains(x) implies set@.contains(
                        x,
                    ) by {
                        let j = choose|j: int| 0 <= j < items@.len() && #[trigger] items@[j] == x;
                        if j < pre_items.len() {
                            assert(pre_items[j] == x);
                            assert(pre_items.contains(x));
                        }
                    }
                    assert forall|x: u64| set@.contains(x) implies items@.to_set().contains(
                        x,
                    ) by {
                        if x == item {
                            assert(items@[items@.len() - 1] == x);
                            assert(items@.contains(x));
                        } else {
                            let j = choose|j: int|
                                0 <= j < pre_items.len() && #[trigger] pre_items[j] == x;
                            assert(items@[j] == x);
                            assert(items@.contains(x));
                        }
                    }
                }
                assert(items@.no_duplicates()) by {
                    assert(!pre_items.contains(item)) by {
                        if pre_items.contains(item) {
                            assert(pre_items.to_set().contains(item));
                        }
                    }
                    assert forall|i: int, j: int|
                        0 <= i < items@.len() && 0 <= j < items@.len() && i != j
                        implies items@[i] != items@[j] by {
                        if i < pre_items.len() && j < pre_items.len() {
                            assert(pre_items[i] != pre_items[j]);
                        } else if i < pre_items.len() {
                            assert(pre_items.contains(pre_items[i]));
                        } else if j < pre_items.len() {
                            assert(pre_items.contains(pre_items[j]));
                        }
                    }
                }
            } else {
                assert(set@ =~= pre_set);
            }
        }
        let rebuilt = FastSet { bits: new_bits, set, items };
        *self = rebuilt;
    }

    /// Returns `true` if the set contains the value.
    ///
    /// The Bloom filter is consulted first as a cheap rejection; the exact
    /// backing set confirms, so the result never depends on the filter's
    /// false positives.
    pub fn contains(&self, item: &u64) -> (r: bool)
        ensures
            r == self@.contains(*item),
    {
        proof {
            use_type_invariant(self);
        }
        self.bloom_contains(item) && self.set.contains(item)
    }

    /// Create a new `FastSet` with the entries from both sets.
    pub fn union(&self, other: &FastSet) -> (r: FastSet)
        ensures
            r@ == self@.union(other@),
    {
        proof {
            use_type_invariant(self);
            use_type_invariant(other);
        }
        let mut r = FastSet::new();
        let mut i: usize = 0;
        while i < self.items.len()
            invariant
                i <= self.items@.len(),
                r@ == self.items@.take(i as int).to_set(),
            decreases self.items@.len() - i,
        {
            proof {
                lemma_take_to_set_step(self.items@, i as int);
            }
            r.add(self.items[i]);
            i += 1;
        }
        proof {
            assert(self.items@.take(self.items@.len() as int) =~= self.items@);
        }
        let mut j: usize = 0;
        while j < other.items.len()
            invariant
                j <= other.items@.len(),
                r@ == self.items@.to_set().union(other.items@.take(j as int).to_set()),
            decreases other.items@.len() - j,
        {
            proof {
                lemma_take_to_set_step(other.items@, j as int);
                assert(self.items@.to_set().union(
                    other.items@.take(j as int).to_set(),
                ).insert(other.items@[j as int]) =~= self.items@.to_set().union(
                    other.items@.take(j + 1 as int).to_set(),
                ));
            }
            r.add(other.items[j]);
            j += 1;
        }
        proof {
            assert(other.items@.take(other.items@.len() as int) =~= other.items@);
        }
        r
    }

    /// Returns `true` if the Bloom filter accepts `item`.
    ///
    /// A `true` answer may be a false positive; a `false` answer is exact,
    /// and an element of the set is always accepted.
    pub fn bloom_contains(&self, item: &u64) -> (r: bool)
        ensures
            r == self.bloom_spec(*item),
            self@.contains(*item) ==> r,
    {
        proof {
            use_type_invariant(self);
        }
        let mask = self.make_bit_mask(item);
        self.bits & mask == mask
    }

    fn make_bit_mask(&self, item: &u64) -> (r: u64)
        ensures
            r == mask_spec(*item),
    {
        let hash1 = self.make_hash(item, OFFSET_ONE);
        let hash2 = self.make_hash(item, OFFSET_TWO);
        (1u64 << (hash1 % NUM_BITS)) | (1u64 << (hash2 % NUM_BITS))
    }

    fn make_hash(&self, item: &u64, seed: u64) -> (r: u64)
        ensures
            r == fnv_hash(seed, *item),
    {
        fnv_digest(*item, seed)
    }
}

impl Default for FastSet {
    /// An empty set.
    fn default() -> (r: FastSet)
        ensures
            r@ == Set::<u64>::empty(),
    {
        FastSet::new()
    }
}

/// Setting a bit pattern makes the filter accept it.
proof fn lemma_or_mask_sets(b: u64, m: u64)
    ensures
        (b | m) & m == m,
{
    assert((b | m) & m == m) by (bit_vector);
}

/// Setting further bits never clears an accepted pattern.
proof fn lemma_or_preserves(b: u64, m: u64, m2: u64)
    requires
        b & m2 == m2,
    ensures
        (b | m) & m2 == m2,
{
    assert(b & m2 == m2 ==> (b | m) & m2 == m2) by (bit_vector);
}

/// Extending a prefix by one element inserts that element into the set of
/// elements seen so far.
proof fn lemma_take_to_set_step(s: Seq<u64>, i: int)
    requires
        0 <= i < s.len(),
    ensures
        s.take(i + 1).to_set() == s.take(i).to_set().insert(s[i]),
{
    assert forall|x: u64| s.take(i + 1).to_set().contains(x) implies s.take(
        i,
    ).to_set().insert(s[i]).contains(x) by {
        let j = choose|j: int| 0 <= j < s.take(i + 1).len() && #[trigger] s.take(i + 1)[j] == x;
        if j < i {
            assert(s.take(i)[j] == x);
            assert(s.take(i).contains(x));
        }
    }
    assert forall|x: u64| s.take(i).to_set().insert(s[i]).contains(x) implies s.take(
        i + 1,
    ).to_set().contains(x) by {
        if x == s[i] {
            assert(s.take(i + 1)[i] == x);
            assert(s.take(i + 1).contains(x));
        } else {
            let j = choose|j: int| 0 <= j < s.take(i).len() && #[trigger] s.take(i)[j] == x;
            assert(s.take(i + 1)[j] == x);
            assert(s.take(i + 1).contains(x));
        }
    }
    assert(s.take(i + 1).to_set() =~= s.take(i).to_set().insert(s[i]));
}

} // verus!
