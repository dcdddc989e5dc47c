//! The membership filter: a fixed bit array, a probe count, and two retained
//! seeded hashers.
//!
//! For an item, two base hashes `h1`, `h2` are drawn by feeding the item's
//! bytes into fresh clones of the retained hashers; probe `i` then touches bit
//! `(h1 + i * h2) mod 2^64 mod m` (double hashing). Insertion sets all `k`
//! probe positions; lookup reports whether all of them are set.
use crate::bits::bits_of;
use crate::bits::bitvec_from_elem;
use crate::bits::bitvec_get;
use crate::bits::bitvec_set;
use crate::hashing::clone_hasher;
use crate::hashing::random_seeded_hasher;
use crate::sizing;
use bit_vec::BitVec;
use std::collections::hash_map::DefaultHasher;
use std::hash::Hasher;
use vstd::prelude::*;
use vstd::std_specs::hash::DefaultHasherAdditionalSpecFns;

verus! {

/// The combination of the two base hashes for probe index `i`:
/// `h1 + i * h2` in wrapping 64-bit arithmetic.
pub open spec fn spec_combined(h1: u64, h2: u64, i: u64) -> u64 {
    vstd::wrapping::u64_specs::wrapping_add(h1, vstd::wrapping::u64_specs::wrapping_mul(i, h2))
}

/// The bit position probed for base hashes `h1`, `h2` at probe index `i` in a
/// bit array of length `m`.
pub open spec fn spec_index(h1: u64, h2: u64, i: u64, m: int) -> int
    recommends
        m >= 1,
{
    (spec_combined(h1, h2, i) as int) % m
}

/// A Bloom filter: records elements, given as byte strings, and answers
/// membership queries with no false negatives and a bounded false-positive
/// rate.
pub struct BloomFilter {
    bitmap: BitVec,
    optimal_m: usize,
    optimal_k: u32,
    hasher_a: DefaultHasher,
    hasher_b: DefaultHasher,
}

impl BloomFilter {
    /// The bit array's contents.
    pub closed spec fn bits(&self) -> Seq<bool> {
        bits_of(self.bitmap)
    }

    /// The bit-array length `m`, fixed at construction.
    pub closed spec fn num_bits(&self) -> usize {
        self.optimal_m
    }

    /// The number of bit positions touched per element, `k`, fixed at
    /// construction.
    pub closed spec fn hash_count(&self) -> u32 {
        self.optimal_k
    }

    /// Well-formedness: the bit array has exactly `m` bits, and `m` and `k`
    /// are at least 1. Construction establishes this and every operation
    /// preserves it.
    pub closed spec fn wf(&self) -> bool {
        &&& self.bits().len() == self.optimal_m
        &&& self.optimal_m >= 1
        &&& self.optimal_k >= 1
    }

    /// Whether two filters share their structure: the same bit-array length,
    /// the same probe count, and the same two seeded hashers — so that every
    /// item probes the same positions in both. Insertions never change a
    /// filter's structure, only its bit contents.
    pub closed spec fn same_shape(&self, other: &BloomFilter) -> bool {
        &&& self.optimal_m == other.optimal_m
        &&& self.optimal_k == other.optimal_k
        &&& self.hasher_a@ == other.hasher_a@
        &&& self.hasher_b@ == other.hasher_b@
    }

    /// The first base hash of `item`: the digest of hasher A's seed state
    /// followed by one write of the item's bytes.
    pub closed spec fn spec_hash1(&self, item: Seq<u8>) -> u64 {
        DefaultHasher::spec_finish(self.hasher_a@.push(item))
    }

    /// The second base hash of `item`, from hasher B.
    pub closed spec fn spec_hash2(&self, item: Seq<u8>) -> u64 {
        DefaultHasher::spec_finish(self.hasher_b@.push(item))
    }

    /// The bit position probed for `item` at probe index `i`.
    pub open spec fn probe(&self, item: Seq<u8>, i: u64) -> int
        recommends
            self.wf(),
    {
        spec_index(self.spec_hash1(item), self.spec_hash2(item), i, self.num_bits() as int)
    }

    /// Whether `j` is one of the `k` probe positions of `item`.
    pub open spec fn is_probe(&self, item: Seq<u8>, j: int) -> bool {
        exists|i: u64| i < self.hash_count() && self.probe(item, i) == j
    }

    /// The bit array after recording `item`: every probe position of `item`
    /// set, every other bit as before.
    pub open spec fn spec_insert_bits(&self, item: Seq<u8>) -> Seq<bool> {
        Seq::new(self.bits().len(), |j: int| self.bits()[j] || self.is_probe(item, j))
    }

    /// Whether every probe position of `item` is set — what `contains`
    /// returns.
    pub open spec fn spec_contains(&self, item: Seq<u8>) -> bool {
        forall|i: u64| i < self.hash_count() ==> self.bits()[#[trigger] self.probe(item, i)]
    }

    /// Creates a filter sized to hold `items_count` elements at a target
    /// false-positive rate of `fp_num / fp_den`, a rational strictly between
    /// 0 and 1. All bits start false; the two hash seeds are drawn fresh at
    /// random, so two filters built with equal parameters probe independently.
    pub fn new(items_count: usize, fp_num: u64, fp_den: u64) -> (filter: BloomFilter)
        requires
            1 <= items_count,
            0 < fp_num < fp_den,
            sizing::spec_bitmap_size(items_count as int, fp_num as int, fp_den as int)
                <= usize::MAX,
        ensures
            filter.wf(),
            filter.num_bits() == sizing::spec_bitmap_size(
                items_count as int,
                fp_num as int,
                fp_den as int,
            ),
            filter.hash_count() == sizing::spec_optimal_k(fp_num as int, fp_den as int),
            filter.bits() == Seq::new(filter.num_bits() as nat, |j: int| false),
    {
        let optimal_m = sizing::bitmap_size(items_count, fp_num, fp_den);
        let optimal_k = sizing::optimal_k(fp_num, fp_den);
        BloomFilter {
            bitmap: bitvec_from_elem(optimal_m, false),
            optimal_m,
            optimal_k,
            hasher_a: random_seeded_hasher(),
            hasher_b: random_seeded_hasher(),
        }
    }

    /// Creates a filter as `new` does, after validating the parameters
    /// instead of requiring them: `None` exactly when `items_count` is zero,
    /// when `fp_num / fp_den` does not lie strictly between 0 and 1, or when
    /// the sized bit array would not fit in `usize`.
    pub fn try_new(items_count: usize, fp_num: u64, fp_den: u64) -> (result: Option<BloomFilter>)
        ensures
            match result {
                Some(filter) => {
                    &&& 1 <= items_count
                    &&& 0 < fp_num < fp_den
                    &&& filter.wf()
                    &&& filter.num_bits() == sizing::spec_bitmap_size(
                        items_count as int,
                        fp_num as int,
                        fp_den as int,
                    )
                    &&& filter.hash_count() == sizing::spec_optimal_k(
                        fp_num as int,
                        fp_den as int,
                    )
                    &&& filter.bits() == Seq::new(filter.num_bits() as nat, |j: int| false)
                },
                None => !(1 <= items_count && 0 < fp_num < fp_den && sizing::spec_bitmap_size(
                    items_count as int,
                    fp_num as int,
                    fp_den as int,
                ) <= usize::MAX),
            },
    {
        if items_count < 1 || fp_num == 0 || fp_num >= fp_den {
            return None;
        }
        match sizing::try_bitmap_size(items_count, fp_num, fp_den) {
            Some(_) => Some(BloomFilter::new(items_count, fp_num, fp_den)),
            None => None,
        }
    }

    /// Derives the two base hash values for `item` by feeding its bytes into
    /// a fresh clone of each retained seeded hasher; the retained hashers are
    /// never mutated.
    fn hash_kernel(&self, item: &[u8]) -> (hashes: (u64, u64))
        ensures
            hashes.0 == self.spec_hash1(item@),
            hashes.1 == self.spec_hash2(item@),
    {
        let mut hasher1 = clone_hasher(&self.hasher_a);
        let mut hasher2 = clone_hasher(&self.hasher_b);
        hasher1.write(item);
        hasher2.write(item);
        (hasher1.finish(), hasher2.finish())
    }

    /// Maps the two base hashes to the bit position for probe index `k_i`,
    /// combining them with wrapping arithmetic and reducing modulo the
    /// bit-array length.
    fn get_index(&self, h1: u64, h2: u64, k_i: u64) -> (index: usize)
        requires
            self.num_bits() >= 1,
        ensures
            index == spec_index(h1, h2, k_i, self.num_bits() as int),
            index < self.num_bits(),
    {
        let combined = h1.wrapping_add(k_i.wrapping_mul(h2));
        (combined % (self.optimal_m as u64)) as usize
    }

    /// Records `item` in the set: sets the bit at each of its `k` probe
    /// positions. Bits only ever move from false to true; the filter's
    /// structure is unchanged, so recording an item again changes nothing.
    pub fn insert(&mut self, item: &[u8])
        requires
            old(self).wf(),
        ensures
            final(self).wf(),
            final(self).same_shape(old(self)),
            final(self).bits() == old(self).spec_insert_bits(item@),
    {
        let (h1, h2) = self.hash_kernel(item);
        let mut k_i: u32 = 0;
        while k_i < self.optimal_k
            invariant
                self.wf(),
                self.same_shape(old(self)),
                self.optimal_m == old(self).optimal_m,
                h1 == old(self).spec_hash1(item@),
                h2 == old(self).spec_hash2(item@),
                k_i <= self.optimal_k,
                self.bits() == Seq::new(
                    old(self).bits().len(),
                    |j: int|
                        old(self).bits()[j] || (exists|i: u64|
                            i < k_i && old(self).probe(item@, i) == j),
                ),
            decreases self.optimal_k - k_i,
        {
            let ghost prev = *self;
            let index = self.get_index(h1, h2, k_i as u64);
            proof {
                assert(self.probe(item@, k_i as u64) == old(self).probe(item@, k_i as u64));
            }
            bitvec_set(&mut self.bitmap, index, true);
            proof {
                let target = Seq::new(
                    old(self).bits().len(),
                    |j: int|
                        old(self).bits()[j] || (exists|i: u64|
                            i < k_i + 1 && old(self).probe(item@, i) == j),
                );
                assert forall|j: int| 0 <= j < target.len() implies self.bits()[j] == target[j] by {
                    if j == index {
                        assert(old(self).probe(item@, k_i as u64) == j);
                    } else {
                        assert(self.bits()[j] == prev.bits()[j]);
                        if exists|i: u64| i < k_i + 1 && old(self).probe(item@, i) == j {
                            let i = choose|i: u64| i < k_i + 1 && old(self).probe(item@, i) == j;
                            assert(i < k_i && old(self).probe(item@, i) == j);
                        }
                    }
                }
                assert(self.bits() =~= target);
            }
            k_i = k_i + 1;
        }
        proof {
            assert(self.bits() =~= old(self).spec_insert_bits(item@));
        }
    }

    /// Tests whether `item` was (probably) recorded: true exactly when every
    /// probe position of `item` is set, returning false as soon as one unset
    /// position is found. An inserted item always tests true; an item never
    /// inserted tests true only if other insertions happen to have set all of
    /// its probe positions. The filter itself is left unchanged.
    pub fn contains(&mut self, item: &[u8]) -> (present: bool)
        requires
            old(self).wf(),
        ensures
            *final(self) == *old(self),
            present == old(self).spec_contains(item@),
    {
        let (h1, h2) = self.hash_kernel(item);
        let mut k_i: u32 = 0;
        while k_i < self.optimal_k
            invariant
                *self == *old(self),
                self.wf(),
                h1 == self.spec_hash1(item@),
                h2 == self.spec_hash2(item@),
                k_i <= self.optimal_k,
                forall|i: u64| i < k_i ==> self.bits()[#[trigger] self.probe(item@, i)],
            decreases self.optimal_k - k_i,
        {
            let index = self.get_index(h1, h2, k_i as u64);
            if !bitvec_get(&self.bitmap, index) {
                proof {
                    assert(!self.bits()[self.probe(item@, k_i as u64)]);
                }
                return false;
            }
            k_i = k_i + 1;
        }
        true
    }

    /// The length of the bit array, `m`.
    pub fn bit_count(&self) -> (m: usize)
        ensures
            m == self.num_bits(),
    {
        self.optimal_m
    }

    /// The number of bit positions touched per element, `k`.
    pub fn probe_count(&self) -> (k: u32)
        ensures
            k == self.hash_count(),
    {
        self.optimal_k
    }

    /// The bit at `index`.
    pub fn bit_at(&self, index: usize) -> (bit: bool)
        requires
            self.wf(),
            index < self.num_bits(),
        ensures
            bit == self.bits()[index as int],
    {
        bitvec_get(&self.bitmap, index)
    }
}

/// Law: recording an item establishes its membership. A filter whose bits are
/// those of `pre` after inserting `item` — which is what `insert` ensures —
/// reports `item` as contained.
pub proof fn lemma_insert_establishes_membership(pre: BloomFilter, post: BloomFilter, item: Seq<u8>)
    requires
        pre.wf(),
        post.same_shape(&pre),
        post.bits() == pre.spec_insert_bits(item),
    ensures
        post.spec_contains(item),
{
    assert forall|i: u64| i < post.hash_count() implies post.bits()[post.probe(item, i)] by {
        assert(post.probe(item, i) == pre.probe(item, i));
        assert(pre.is_probe(item, pre.probe(item, i)));
    }
}

/// Law: membership is monotone in the bit array. Between two filters of the
/// same structure, if every set bit of the first is set in the second, every
/// item contained in the first is contained in the second. Since insertions
/// only ever set bits, no later insertion can revoke a membership: there are
/// no false negatives.
pub proof fn lemma_bits_monotone_preserves_membership(
    f1: BloomFilter,
    f2: BloomFilter,
    item: Seq<u8>,
)
    requires
        f1.wf(),
        f2.wf(),
        f2.same_shape(&f1),
        forall|j: int| 0 <= j < f1.bits().len() && f1.bits()[j] ==> f2.bits()[j],
        f1.spec_contains(item),
    ensures
        f2.spec_contains(item),
{
    assert forall|i: u64| i < f2.hash_count() implies f2.bits()[f2.probe(item, i)] by {
        assert(f2.probe(item, i) == f1.probe(item, i));
        assert(f1.bits()[f1.probe(item, i)]);
    }
}

/// Law: inserting an item never clears a bit, and never changes the bit
/// array's length. Together with the lemma above: once an item is recorded,
/// it tests as contained after any further insertions.
pub proof fn lemma_insert_grows_bits(pre: BloomFilter, item: Seq<u8>)
    requires
        pre.wf(),
    ensures
        pre.spec_insert_bits(item).len() == pre.bits().len(),
        forall|j: int| 0 <= j < pre.bits().len() && pre.bits()[j] ==> pre.spec_insert_bits(item)[j],
{
}

/// Law: a freshly constructed filter contains nothing. With every bit false —
/// as construction guarantees — every query reports absence, exactly.
pub proof fn lemma_empty_filter_contains_nothing(filter: BloomFilter, item: Seq<u8>)
    requires
        filter.wf(),
        forall|j: int| 0 <= j < filter.bits().len() ==> !filter.bits()[j],
    ensures
        !filter.spec_contains(item),
{
    let j = filter.probe(item, 0);
    assert(0 <= j < filter.bits().len());
    assert(!filter.bits()[filter.probe(item, 0)]);
}

/// The relation between a filter's value before and after one call to
/// `insert`, as its contract states it: the structure is unchanged and the
/// bits are those of the old value with the item's probe positions set.
pub open spec fn insert_step(pre: BloomFilter, post: BloomFilter, item: Seq<u8>) -> bool {
    &&& post.same_shape(&pre)
    &&& post.bits() == pre.spec_insert_bits(item)
}

/// One insertion step preserves well-formedness.
proof fn lemma_step_preserves_wf(pre: BloomFilter, post: BloomFilter, item: Seq<u8>)
    requires
        pre.wf(),
        insert_step(pre, post, item),
    ensures
        post.wf(),
{
    assert(post.bits().len() == pre.bits().len());
}

/// Every filter along a chain of insertion steps is well-formed.
proof fn lemma_chain_wf(filters: Seq<BloomFilter>, items: Seq<Seq<u8>>, upto: int)
    requires
        filters.len() == items.len() + 1,
        filters[0].wf(),
        forall|i: int|
            0 <= i < items.len() ==> #[trigger] insert_step(filters[i], filters[i + 1], items[i]),
        0 <= upto < filters.len(),
    ensures
        filters[upto].wf(),
    decreases upto,
{
    if upto > 0 {
        lemma_chain_wf(filters, items, upto - 1);
        assert(insert_step(filters[upto - 1], filters[(upto - 1) + 1], items[upto - 1]));
        lemma_step_preserves_wf(filters[upto - 1], filters[upto], items[upto - 1]);
    }
}

/// Membership survives the rest of a chain of insertion steps.
proof fn lemma_membership_survives_chain(
    filters: Seq<BloomFilter>,
    items: Seq<Seq<u8>>,
    x: Seq<u8>,
    from: int,
)
    requires
        filters.len() == items.len() + 1,
        forall|i: int|
            0 <= i < items.len() ==> #[trigger] insert_step(filters[i], filters[i + 1], items[i]),
        0 <= from < filters.len(),
        filters[from].wf(),
        filters[from].spec_contains(x),
    ensures
        filters[filters.len() - 1].spec_contains(x),
    decreases filters.len() - from,
{
    if from < filters.len() - 1 {
        assert(insert_step(filters[from], filters[from + 1], items[from]));
        lemma_step_preserves_wf(filters[from], filters[from + 1], items[from]);
        lemma_bits_monotone_preserves_membership(filters[from], filters[from + 1], x);
        lemma_membership_survives_chain(filters, items, x, from + 1);
    }
}

/// Law: no false negatives. Run any finite sequence of insertions from any
/// well-formed filter — `filters` being the filter's values along the way,
/// each step related to the last as `insert` ensures — and every inserted
/// item is contained in the final filter: immediately after its own
/// insertion, and still after all the insertions that follow.
pub proof fn lemma_no_false_negatives(filters: Seq<BloomFilter>, items: Seq<Seq<u8>>, t: int)
    requires
        filters.len() == items.len() + 1,
        filters[0].wf(),
        forall|i: int|
            0 <= i < items.len() ==> #[trigger] insert_step(filters[i], filters[i + 1], items[i]),
        0 <= t < items.len(),
    ensures
        filters[t + 1].spec_contains(items[t]),
        filters[filters.len() - 1].spec_contains(items[t]),
{
    lemma_chain_wf(filters, items, t);
    assert(insert_step(filters[t], filters[t + 1], items[t]));
    lemma_step_preserves_wf(filters[t], filters[t + 1], items[t]);
    lemma_insert_establishes_membership(filters[t], filters[t + 1], items[t]);
    lemma_membership_survives_chain(filters, items, items[t], t + 1);
}

/// Law: insertion is idempotent. Inserting an item into a filter that already
/// holds the result of inserting it once leaves the bit array identical, so
/// inserting the same item multiple times produces the bit array of a single
/// insertion.
pub proof fn lemma_insert_idempotent(pre: BloomFilter, once: BloomFilter, item: Seq<u8>)
    requires
        pre.wf(),
        once.wf(),
        once.same_shape(&pre),
        once.bits() == pre.spec_insert_bits(item),
    ensures
        once.spec_insert_bits(item) == once.bits(),
{
    assert forall|j: int| 0 <= j < once.bits().len() implies once.spec_insert_bits(item)[j]
        == once.bits()[j] by {
        if once.is_probe(item, j) {
            let i = choose|i: u64| i < once.hash_count() && once.probe(item, i) == j;
            assert(pre.probe(item, i) == j);
            assert(pre.is_probe(item, j));
        }
    }
    assert(once.spec_insert_bits(item) =~= once.bits());
}

} // verus!
