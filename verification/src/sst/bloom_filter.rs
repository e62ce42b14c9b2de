//! A membership filter: a fixed array of bits that is probed in several
//! places per key.
//!
//! Inserting a key sets the bits at its probes. A key may be contained when
//! all bits at its probes are set: the filter never denies a key that was
//! inserted, and it may affirm one that was not.
//!
//! The bits are kept in a `bit_vec::BitVec`. Probe `i` of a key is the hash of
//! the key and of the seed `i`, reduced modulo the number of bits; the hash
//! is that of `std::collections::hash_map::DefaultHasher`.

use bit_vec::BitVec;
use std::collections::hash_map::DefaultHasher;
use std::hash::Hasher;
use vstd::bytes::{spec_u64_to_le_bytes, u64_to_le_bytes};
use vstd::prelude::*;
use vstd::std_specs::hash::DefaultHasherAdditionalSpecFns;

verus! {

/// `bit_vec::BitVec`: a vector of bits. What a value holds is spoken of
/// through [`bits_of`] only.
#[verifier::external_type_specification]
#[verifier::external_body]
#[verifier::reject_recursive_types(B)]
pub struct ExBitVec<B>(BitVec<B>);

/// The bits that a `bit_vec::BitVec` holds, first bit first.
pub uninterp spec fn bits_of(bits: BitVec) -> Seq<bool>;

/// `BitVec::from_elem`: a bit vector of `len` bits, each of them `bit`.
#[verifier::external_body]
fn bits_from_elem(len: usize, bit: bool) -> (bits: BitVec)
    ensures
        bits_of(bits) == Seq::new(len as nat, |i: int| bit),
{
    BitVec::from_elem(len, bit)
}

/// `BitVec::len`: the number of bits.
#[verifier::external_body]
fn bit_count(bits: &BitVec) -> (len: usize)
    ensures
        len == bits_of(*bits).len(),
{
    bits.len()
}

/// Indexing a `BitVec`: the bit at `index`. The crate panics where `index` is
/// not below the number of bits, so that is required.
#[verifier::external_body]
fn bit_at(bits: &BitVec, index: usize) -> (bit: bool)
    requires
        index < bits_of(*bits).len(),
    ensures
        bit == bits_of(*bits)[index as int],
{
    bits[index]
}

/// `BitVec::set`: makes the bit at `index` be `bit` and leaves the others as
/// they are. The crate panics where `index` is not below the number of bits,
/// so that is required.
#[verifier::external_body]
fn set_bit(bits: &mut BitVec, index: usize, bit: bool)
    requires
        index < bits_of(*old(bits)).len(),
    ensures
        bits_of(*final(bits)) == bits_of(*old(bits)).update(index as int, bit),
{
    bits.set(index, bit)
}

/// The hash of `key` and `seed`: what the default hasher returns after it
/// was fed `key` and then the eight bytes of `seed`, low byte first.
pub open spec fn spec_hash(key: Seq<u8>, seed: usize) -> u64 {
    DefaultHasher::spec_finish(seq![key, spec_u64_to_le_bytes(seed as u64)])
}

/// Where probe `seed` of `key` falls among `num_bits` bits.
pub open spec fn probe(key: Seq<u8>, seed: usize, num_bits: nat) -> int {
    spec_hash(key, seed) as int % num_bits as int
}

/// Whether a probe of `key` with a seed below `num_hashes` falls on `index`.
pub open spec fn probed(key: Seq<u8>, num_hashes: usize, num_bits: nat, index: int) -> bool {
    exists|seed: usize| seed < num_hashes && #[trigger] probe(key, seed, num_bits) == index
}

/// The state of a filter: its bits and the number of probes per key.
pub ghost struct FilterView {
    pub bits: Seq<bool>,
    pub num_hashes: usize,
}

impl FilterView {
    /// A filter of `num_bits` unset bits.
    pub open spec fn empty(num_bits: usize, num_hashes: usize) -> FilterView {
        FilterView { bits: Seq::new(num_bits as nat, |i: int| false), num_hashes }
    }

    /// Whether `key` may be contained: every bit at its probes is set.
    pub open spec fn contains(self, key: Seq<u8>) -> bool {
        forall|seed: usize|
            seed < self.num_hashes ==> self.bits[#[trigger] probe(key, seed, self.bits.len())]
    }

    /// The filter after `key` was inserted: the bits at its probes are set as
    /// well.
    pub open spec fn insert(self, key: Seq<u8>) -> FilterView {
        FilterView {
            bits: Seq::new(
                self.bits.len(),
                |index: int| self.bits[index] || probed(key, self.num_hashes, self.bits.len(), index),
            ),
            num_hashes: self.num_hashes,
        }
    }

    /// Every bit that is set in `self` is set in `other`, which has as many
    /// bits and probes.
    pub open spec fn within(self, other: FilterView) -> bool {
        &&& self.num_hashes == other.num_hashes
        &&& self.bits.len() == other.bits.len()
        &&& forall|index: int| 0 <= index < self.bits.len() && self.bits[index] ==> other.bits[index]
    }
}

/// A membership filter.
pub struct BloomFilter {
    bits: BitVec,
    num_hashes: usize,
    num_elements: usize,
}

impl View for BloomFilter {
    type V = FilterView;

    closed spec fn view(&self) -> FilterView {
        FilterView { bits: bits_of(self.bits), num_hashes: self.num_hashes }
    }
}

impl BloomFilter {
    /// How many keys were inserted, counted modulo the range of `usize`.
    pub closed spec fn spec_num_elements(&self) -> usize {
        self.num_elements
    }

    /// The filter has at least one bit, and no more than can be counted,
    /// and it probes at least one bit per key.
    pub open spec fn wf(&self) -> bool {
        0 < self@.bits.len() <= usize::MAX && self@.num_hashes > 0
    }

    /// A filter of `num_bits` unset bits that probes `num_hashes` bits per
    /// key.
    pub fn with_dimensions(num_bits: usize, num_hashes: usize) -> (filter: Self)
        requires
            num_bits > 0,
            num_hashes > 0,
        ensures
            filter.wf(),
            filter@ == FilterView::empty(num_bits, num_hashes),
            filter.spec_num_elements() == 0,
    {
        BloomFilter { bits: bits_from_elem(num_bits, false), num_hashes, num_elements: 0 }
    }

    /// Inserts `key`: sets the bits at its probes.
    pub fn set(&mut self, key: &[u8])
        requires
            old(self).wf(),
        ensures
            final(self).wf(),
            final(self)@ == old(self)@.insert(key@),
            final(self)@.contains(key@),
            final(self).spec_num_elements() == old(self).spec_num_elements().wrapping_add(1),
    {
        let num_bits: usize = bit_count(&self.bits);
        let ghost before = self@;
        let mut seed: usize = 0;
        while seed < self.num_hashes
            invariant
                seed <= self.num_hashes,
                self.num_hashes == before.num_hashes,
                self.num_elements == old(self).num_elements,
                num_bits == before.bits.len(),
                num_bits > 0,
                self@.bits.len() == num_bits,
                forall|index: int|
                    0 <= index < num_bits ==> #[trigger] self@.bits[index] == (before.bits[index]
                        || probed(key@, seed, num_bits as nat, index)),
            decreases self.num_hashes - seed,
        {
            let hash: u64 = calculate_hash(key, seed);
            let index: usize = (hash % (num_bits as u64)) as usize;
            assert(index == probe(key@, seed, num_bits as nat));
            let ghost bits_before = self@.bits;
            set_bit(&mut self.bits, index, true);
            assert forall|at: int| 0 <= at < num_bits implies #[trigger] self@.bits[at] == (
            before.bits[at] || probed(key@, (seed + 1) as usize, num_bits as nat, at)) by {
                if probed(key@, (seed + 1) as usize, num_bits as nat, at) {
                    let found = choose|found: usize|
                        found < seed + 1 && #[trigger] probe(key@, found, num_bits as nat) == at;
                    if found < seed {
                        assert(probed(key@, seed, num_bits as nat, at));
                    }
                }
                if probed(key@, seed, num_bits as nat, at) {
                    let found = choose|found: usize|
                        found < seed && #[trigger] probe(key@, found, num_bits as nat) == at;
                    assert(found < seed + 1);
                }
                if at == index {
                    assert(probe(key@, seed, num_bits as nat) == at);
                }
            }
            seed = seed + 1;
        }
        self.num_elements = self.num_elements.wrapping_add(1);
        assert(self@.bits =~= before.insert(key@).bits);
        assert(self@.contains(key@)) by {
            assert forall|probe_seed: usize| probe_seed < self.num_hashes implies self@.bits[#[trigger] probe(
                key@,
                probe_seed,
                self@.bits.len(),
            )] by {
                let at = probe(key@, probe_seed, num_bits as nat);
                assert(probed(key@, self.num_hashes, num_bits as nat, at));
            }
        }
    }

    /// Whether `key` may be contained. `false` says that `key` was not
    /// inserted.
    pub fn contains(&self, key: &[u8]) -> (may_contain: bool)
        requires
            self.wf(),
        ensures
            may_contain == self@.contains(key@),
    {
        let num_bits: usize = bit_count(&self.bits);
        let mut seed: usize = 0;
        while seed < self.num_hashes
            invariant
                seed <= self.num_hashes,
                num_bits == self@.bits.len(),
                num_bits > 0,
                forall|earlier: usize|
                    earlier < seed ==> self@.bits[#[trigger] probe(key@, earlier, num_bits as nat)],
            decreases self.num_hashes - seed,
        {
            let hash: u64 = calculate_hash(key, seed);
            let index: usize = (hash % (num_bits as u64)) as usize;
            assert(index == probe(key@, seed, num_bits as nat));
            if !bit_at(&self.bits, index) {
                return false;
            }
            seed = seed + 1;
        }
        true
    }

    /// How many keys were inserted, counted modulo the range of `usize`.
    pub fn num_elements(&self) -> (count: usize)
        ensures
            count == self.spec_num_elements(),
    {
        self.num_elements
    }

    /// The number of bits.
    pub fn num_bits(&self) -> (count: usize)
        ensures
            count == self@.bits.len(),
    {
        bit_count(&self.bits)
    }

    /// The number of probes per key.
    pub fn num_hashes(&self) -> (count: usize)
        ensures
            count == self@.num_hashes,
    {
        self.num_hashes
    }
}

/// The hash of `key` and `seed`.
pub fn calculate_hash(key: &[u8], seed: usize) -> (hash: u64)
    ensures
        hash == spec_hash(key@, seed),
{
    let mut hasher = DefaultHasher::new();
    hasher.write(key);
    let seed_bytes = u64_to_le_bytes(seed as u64);
    hasher.write(seed_bytes.as_slice());
    assert(hasher@ == seq![key@, spec_u64_to_le_bytes(seed as u64)]);
    hasher.finish()
}

/// A key that was inserted may be contained, then and after every later
/// insertion: inserting sets bits and unsets none.
pub proof fn lemma_no_false_negative(filter: FilterView, inserted: Seq<u8>, later: Seq<Seq<u8>>)
    requires
        filter.bits.len() > 0,
    ensures
        insert_all(filter.insert(inserted), later).contains(inserted),
{
    let start = filter.insert(inserted);
    assert(start.contains(inserted)) by {
        assert forall|seed: usize| seed < start.num_hashes implies start.bits[#[trigger] probe(
            inserted,
            seed,
            start.bits.len(),
        )] by {
            let at = probe(inserted, seed, filter.bits.len());
            assert(probed(inserted, filter.num_hashes, filter.bits.len(), at));
        }
    }
    lemma_insert_all_grows(start, later);
    lemma_within_contains(start, insert_all(start, later), inserted);
}

/// The filter after `keys` were inserted in order.
pub open spec fn insert_all(filter: FilterView, keys: Seq<Seq<u8>>) -> FilterView
    decreases keys.len(),
{
    if keys.len() == 0 {
        filter
    } else {
        insert_all(filter, keys.drop_last()).insert(keys.last())
    }
}

/// Insertions leave every set bit set.
pub proof fn lemma_insert_all_grows(filter: FilterView, keys: Seq<Seq<u8>>)
    ensures
        filter.within(insert_all(filter, keys)),
    decreases keys.len(),
{
    if keys.len() > 0 {
        lemma_insert_all_grows(filter, keys.drop_last());
    }
}

/// What may be contained in a filter may be contained in one that has all
/// its bits set.
pub proof fn lemma_within_contains(small: FilterView, large: FilterView, key: Seq<u8>)
    requires
        small.bits.len() > 0,
        small.within(large),
        small.contains(key),
    ensures
        large.contains(key),
{
    assert forall|seed: usize| seed < large.num_hashes implies large.bits[#[trigger] probe(
        key,
        seed,
        large.bits.len(),
    )] by {
        let at = probe(key, seed, small.bits.len());
        assert(small.bits[at]);
        assert(0 <= at < small.bits.len());
    }
}

} // verus!
