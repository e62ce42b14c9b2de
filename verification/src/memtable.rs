//! The in-memory write buffer: an ordered map from keys to values behind a
//! membership filter.
//!
//! The filter stands in front of the lookups. A key that it reports as absent
//! is neither looked up nor removed, and `set` refuses a key that it reports
//! as possibly present. The filter knows no removal: a key that was set
//! stays reported until the buffer is replaced by a fresh one. So `put`
//! writes through the ordered map: it sets a key whatever the filter reports,
//! and replaces the value of a key that the buffer holds.

use crate::api::SizeUnit;
use crate::error::Error;
use crate::order::{
    increasing, keyed_map, keys_by, keys_of, lemma_map_absent, lemma_map_at, lemma_map_insert,
    lemma_map_remove, lemma_map_update, lemma_split_absent, search, splits_at, Keyed,
};
use crate::sst::bloom_filter::{BloomFilter, FilterView};
use vstd::prelude::*;
use vstd::slice::slice_to_vec;

verus! {

/// The default capacity of a buffer: one gigabyte.
pub const DEFAULT_MEMTABLE_CAPACITY: usize = 1_073_741_824;

/// The number of filter bits that goes with the default capacity: what a
/// false-positive rate of one in ten thousand asks for.
pub const DEFAULT_FILTER_BITS: usize = 205_837_557;

/// The number of probes per key that goes with the default capacity.
pub const DEFAULT_FILTER_HASHES: usize = 14;

/// The size of an average entry, by which a capacity is turned into the
/// number of entries to expect.
pub const AVERAGE_ENTRY_SIZE: usize = 100;

/// A key and its value.
#[derive(Clone, Debug, PartialEq, Eq)]
pub struct KeyValue {
    pub key: Vec<u8>,
    pub value: Vec<u8>,
}

impl View for KeyValue {
    type V = (Seq<u8>, Seq<u8>);

    open spec fn view(&self) -> (Seq<u8>, Seq<u8>) {
        (self.key@, self.value@)
    }
}

impl Keyed for KeyValue {
    open spec fn key_view(&self) -> Seq<u8> {
        self.key@
    }

    fn key_bytes(&self) -> (key: &[u8]) {
        self.key.as_slice()
    }
}

/// The key of a pair.
pub open spec fn pair_key() -> spec_fn((Seq<u8>, Seq<u8>)) -> Seq<u8> {
    |pair: (Seq<u8>, Seq<u8>)| pair.0
}

/// The map from each key of `pairs` to its value.
pub open spec fn pair_map(pairs: Seq<(Seq<u8>, Seq<u8>)>) -> Map<Seq<u8>, Seq<u8>> {
    keyed_map(pairs, pair_key()).map_values(|pair: (Seq<u8>, Seq<u8>)| pair.1)
}

/// The pairs are in ascending key order, one per key.
pub open spec fn sorted_pairs(pairs: Seq<(Seq<u8>, Seq<u8>)>) -> bool {
    increasing(keys_by(pairs, pair_key()))
}

/// The bytes of all keys and values of `pairs`.
pub open spec fn pairs_size(pairs: Seq<(Seq<u8>, Seq<u8>)>) -> nat
    decreases pairs.len(),
{
    if pairs.len() == 0 {
        0
    } else {
        pairs_size(pairs.drop_last()) + pairs.last().0.len() + pairs.last().1.len()
    }
}

/// The state of a buffer.
pub ghost struct MemView {
    /// The values by key.
    pub map: Map<Seq<u8>, Seq<u8>>,
    /// The membership filter.
    pub filter: FilterView,
    /// The number of entries.
    pub entry_count: nat,
    /// The bytes of all keys and values.
    pub size: nat,
    /// The size at which the buffer is due to be flushed.
    pub capacity: nat,
}

impl MemView {
    /// An empty buffer.
    pub open spec fn fresh(capacity: nat, num_bits: usize, num_hashes: usize) -> MemView {
        MemView {
            map: Map::empty(),
            filter: FilterView::empty(num_bits, num_hashes),
            entry_count: 0,
            size: 0,
            capacity,
        }
    }

    /// The value under `key`: none where the filter reports `key` as absent,
    /// else what the map holds.
    pub open spec fn get(self, key: Seq<u8>) -> Option<Seq<u8>> {
        if self.filter.contains(key) && self.map.dom().contains(key) {
            Some(self.map[key])
        } else {
            None
        }
    }

    /// The buffer after `value` was set under `key`, or `AlreadyExists` where
    /// the filter reports `key` as possibly present.
    pub open spec fn set(self, key: Seq<u8>, value: Seq<u8>) -> Result<MemView, Error> {
        if self.filter.contains(key) {
            Err(Error::AlreadyExists)
        } else {
            Ok(
                MemView {
                    map: self.map.insert(key, value),
                    filter: self.filter.insert(key),
                    entry_count: self.entry_count + 1,
                    size: self.size + key.len() + value.len(),
                    capacity: self.capacity,
                },
            )
        }
    }

    /// The buffer after `value` was put under `key`, whatever the filter
    /// reports: the value of a key that the buffer holds is replaced, and
    /// the size follows it.
    pub open spec fn put(self, key: Seq<u8>, value: Seq<u8>) -> MemView {
        MemView {
            map: self.map.insert(key, value),
            filter: self.filter.insert(key),
            entry_count: if self.map.dom().contains(key) {
                self.entry_count
            } else {
                self.entry_count + 1
            },
            size: if self.map.dom().contains(key) {
                (self.size - self.map[key].len() + value.len()) as nat
            } else {
                self.size + key.len() + value.len()
            },
            capacity: self.capacity,
        }
    }

    /// The buffer after `key` was removed. The filter stays as it is.
    pub open spec fn remove(self, key: Seq<u8>) -> MemView {
        match self.get(key) {
            None => self,
            Some(value) => MemView {
                map: self.map.remove(key),
                filter: self.filter,
                entry_count: (self.entry_count - 1) as nat,
                size: (self.size - key.len() - value.len()) as nat,
                capacity: self.capacity,
            },
        }
    }

    /// The buffer after it was cleared. The filter stays as it is.
    pub open spec fn clear(self) -> MemView {
        MemView {
            map: Map::empty(),
            filter: self.filter,
            entry_count: 0,
            size: 0,
            capacity: self.capacity,
        }
    }
}

/// The write buffer.
pub struct MemTable {
    entries: Vec<KeyValue>,
    entry_count: usize,
    size: usize,
    capacity: usize,
    bloom_filter: BloomFilter,
    size_unit: SizeUnit,
}

impl View for MemTable {
    type V = MemView;

    closed spec fn view(&self) -> MemView {
        MemView {
            map: pair_map(self.spec_entries()),
            filter: self.bloom_filter@,
            entry_count: self.entry_count as nat,
            size: self.size as nat,
            capacity: self.capacity as nat,
        }
    }
}

/// The pairs that `entries` stand for.
pub open spec fn pairs_of(entries: Seq<(Vec<u8>, Vec<u8>)>) -> Seq<(Seq<u8>, Seq<u8>)> {
    entries.map_values(|entry: (Vec<u8>, Vec<u8>)| (entry.0@, entry.1@))
}

/// What a removal returns.
pub open spec fn removed(pair: Option<(Vec<u8>, Vec<u8>)>) -> Option<(Seq<u8>, Seq<u8>)> {
    match pair {
        Some(pair) => Some((pair.0@, pair.1@)),
        None => None,
    }
}

/// What a lookup returns.
pub open spec fn found(value: Option<Vec<u8>>) -> Option<Seq<u8>> {
    match value {
        Some(value) => Some(value@),
        None => None,
    }
}

impl MemTable {
    /// The entries in ascending key order.
    pub closed spec fn spec_entries(&self) -> Seq<(Seq<u8>, Seq<u8>)> {
        Seq::new(self.entries@.len(), |i: int| self.entries@[i]@)
    }

    /// The unit in which the buffer reports its size.
    pub closed spec fn spec_size_unit(&self) -> SizeUnit {
        self.size_unit
    }

    /// The buffer is in order: its entries ascend by key and are what the
    /// map holds, the counters count them, the filter has bits and probes at
    /// least one of them per key, and it reports every key of the buffer as
    /// possibly present.
    pub open spec fn wf(&self) -> bool {
        &&& sorted_pairs(self.spec_entries())
        &&& self@.map == pair_map(self.spec_entries())
        &&& self@.entry_count == self.spec_entries().len()
        &&& self@.size == pairs_size(self.spec_entries())
        &&& 0 < self@.filter.bits.len() <= usize::MAX
        &&& self@.filter.num_hashes > 0
        &&& self.spec_size_unit() == SizeUnit::Bytes
        &&& forall|i: int|
            0 <= i < self.spec_entries().len() ==> self@.filter.contains(
                (#[trigger] self.spec_entries()[i]).0,
            )
    }

    /// An empty buffer of the default capacity, with the filter that goes
    /// with it.
    pub fn new() -> (table: Self)
        ensures
            table.wf(),
            table@ == MemView::fresh(
                DEFAULT_MEMTABLE_CAPACITY as nat,
                DEFAULT_FILTER_BITS,
                DEFAULT_FILTER_HASHES,
            ),
    {
        Self::with_capacity_and_rate(
            SizeUnit::Bytes,
            DEFAULT_MEMTABLE_CAPACITY,
            DEFAULT_FILTER_BITS,
            DEFAULT_FILTER_HASHES,
        )
    }

    /// An empty buffer of `capacity` units of `size_unit`, with a filter of
    /// `num_bits` bits and `num_hashes` probes per key: the dimensions that
    /// the wanted false-positive rate asks for.
    pub fn with_capacity_and_rate(
        size_unit: SizeUnit,
        capacity: usize,
        num_bits: usize,
        num_hashes: usize,
    ) -> (table: Self)
        requires
            capacity > 0,
            size_unit.spec_to_bytes(capacity as nat) <= usize::MAX,
            num_bits > 0,
            num_hashes > 0,
        ensures
            table.wf(),
            table@ == MemView::fresh(size_unit.spec_to_bytes(capacity as nat), num_bits, num_hashes),
    {
        let capacity_bytes = size_unit.to_bytes(capacity);
        let bloom_filter = BloomFilter::with_dimensions(num_bits, num_hashes);
        let table = MemTable {
            entries: Vec::new(),
            entry_count: 0,
            size: 0,
            capacity: capacity_bytes,
            bloom_filter,
            size_unit: SizeUnit::Bytes,
        };
        proof {
            assert(table.spec_entries() == Seq::<(Seq<u8>, Seq<u8>)>::empty());
            assert(pair_map(table.spec_entries()) =~= Map::<Seq<u8>, Seq<u8>>::empty());
        }
        table
    }

    /// Sets `value` under `key`, unless the filter reports `key` as possibly
    /// present: then nothing changes and `AlreadyExists` is returned.
    pub fn set(&mut self, key: Vec<u8>, value: Vec<u8>) -> (result: Result<(), Error>)
        requires
            old(self).wf(),
            old(self)@.size + key@.len() + value@.len() <= usize::MAX,
        ensures
            final(self).wf(),
            match old(self)@.set(key@, value@) {
                Ok(next) => result == Ok::<(), Error>(()) && final(self)@ == next,
                Err(error) => result == Err::<(), Error>(error) && final(self)@ == old(self)@,
            },
    {
        if !self.bloom_filter.contains(key.as_slice()) {
            let size_change: usize = key.len() + value.len();
            proof {
                self.lemma_keys();
            }
            let at: usize = match search(&self.entries, key.as_slice()) {
                Ok(at) => {
                    proof {
                        assert(self.spec_entries()[at as int].0 == key@);
                        assert(false);
                    }
                    at
                },
                Err(at) => at,
            };
            let ghost pairs = self.spec_entries();
            let ghost pair = (key@, value@);
            proof {
                lemma_pair_map_insert(pairs, at as int, pair);
                lemma_pairs_size_insert(pairs, at as int, pair);
            }
            self.bloom_filter.set(key.as_slice());
            self.entries.insert(at, KeyValue { key, value });
            self.entry_count = self.entries.len();
            self.size = self.size + size_change;
            proof {
                assert(self.spec_entries() == pairs.insert(at as int, pair));
                assert forall|i: int| 0 <= i < self.spec_entries().len() implies self@.filter.contains(
                    (#[trigger] self.spec_entries()[i]).0,
                ) by {
                    if i != at {
                        let from = if i < at {
                            i
                        } else {
                            i - 1
                        };
                        assert(self.spec_entries()[i] == pairs[from]);
                        assert(old(self)@.filter.contains(pairs[from].0));
                        crate::sst::bloom_filter::lemma_insert_all_grows(
                            old(self)@.filter,
                            seq![key@],
                        );
                        assert(seq![key@].drop_last() == Seq::<Seq<u8>>::empty());
                        crate::sst::bloom_filter::lemma_within_contains(
                            old(self)@.filter,
                            self@.filter,
                            pairs[from].0,
                        );
                    }
                }
            }
            return Ok(());
        }
        Err(Error::AlreadyExists)
    }

    /// Puts `value` under `key`, whatever the filter reports: a key that the
    /// buffer holds gets the new value, another key is added.
    pub fn put(&mut self, key: Vec<u8>, value: Vec<u8>)
        requires
            old(self).wf(),
            old(self)@.size + key@.len() + value@.len() <= usize::MAX,
        ensures
            final(self).wf(),
            final(self)@ == old(self)@.put(key@, value@),
            final(self)@.get(key@) == Some(value@),
            final(self)@.size <= old(self)@.size + key@.len() + value@.len(),
    {
        proof {
            self.lemma_keys();
        }
        let ghost pairs = self.spec_entries();
        let ghost pair = (key@, value@);
        let found = search(&self.entries, key.as_slice());
        self.bloom_filter.set(key.as_slice());
        match found {
            Ok(at) => {
                proof {
                    lemma_pair_map_at(pairs, at as int);
                    lemma_pair_map_update(pairs, at as int, pair);
                    lemma_pairs_size_update(pairs, at as int, pair);
                    lemma_pairs_size_remove(pairs, at as int);
                    assert(pairs[at as int] == self.entries@[at as int]@);
                }
                let stored: usize = self.entries[at].value.len();
                self.size = self.size - stored + value.len();
                self.entries[at] = KeyValue { key, value };
                proof {
                    assert(self.spec_entries() == pairs.update(at as int, pair));
                }
            },
            Err(at) => {
                proof {
                    lemma_pair_map_absent(pairs, key@, at as int);
                    lemma_pair_map_insert(pairs, at as int, pair);
                    lemma_pairs_size_insert(pairs, at as int, pair);
                }
                let size_change: usize = key.len() + value.len();
                self.entries.insert(at, KeyValue { key, value });
                self.entry_count = self.entries.len();
                self.size = self.size + size_change;
                proof {
                    assert(self.spec_entries() == pairs.insert(at as int, pair));
                }
            },
        }
        proof {
            crate::sst::bloom_filter::lemma_no_false_negative(
                old(self)@.filter,
                key@,
                Seq::empty(),
            );
            assert forall|i: int| 0 <= i < self.spec_entries().len() implies self@.filter.contains(
                (#[trigger] self.spec_entries()[i]).0,
            ) by {
                let held = self.spec_entries()[i].0;
                if held != key@ {
                    assert(exists|j: int| 0 <= j < pairs.len() && pairs[j].0 == held) by {
                        match found {
                            Ok(at) => {
                                assert(pairs[i].0 == held);
                            },
                            Err(at) => {
                                let from = if i < at {
                                    i
                                } else {
                                    i - 1
                                };
                                assert(pairs[from].0 == held);
                            },
                        }
                    }
                    let j = choose|j: int| 0 <= j < pairs.len() && pairs[j].0 == held;
                    assert(old(self)@.filter.contains(pairs[j].0));
                    crate::sst::bloom_filter::lemma_within_contains(
                        old(self)@.filter,
                        self@.filter,
                        held,
                    );
                }
            }
        }
    }

    /// The value under `key`.
    pub fn get(&self, key: Vec<u8>) -> (value: Option<Vec<u8>>)
        requires
            self.wf(),
        ensures
            found(value) == self@.get(key@),
    {
        if !self.bloom_filter.contains(key.as_slice()) {
            return None;
        }
        proof {
            self.lemma_keys();
        }
        match search(&self.entries, key.as_slice()) {
            Ok(at) => {
                proof {
                    lemma_pair_map_at(self.spec_entries(), at as int);
                }
                Some(slice_to_vec(self.entries[at].value.as_slice()))
            },
            Err(at) => {
                proof {
                    lemma_pair_map_absent(self.spec_entries(), key@, at as int);
                }
                None
            },
        }
    }

    /// Removes `key` and returns the entry that was kept under it.
    pub fn remove(&mut self, key: Vec<u8>) -> (pair: Option<(Vec<u8>, Vec<u8>)>)
        requires
            old(self).wf(),
        ensures
            final(self).wf(),
            final(self)@ == old(self)@.remove(key@),
            final(self)@.size <= old(self)@.size,
            removed(pair) == (match old(self)@.get(key@) {
                Some(value) => Some((key@, value)),
                None => None,
            }),
    {
        if !self.bloom_filter.contains(key.as_slice()) {
            return None;
        }
        proof {
            self.lemma_keys();
        }
        match search(&self.entries, key.as_slice()) {
            Ok(at) => {
                let ghost pairs = self.spec_entries();
                proof {
                    lemma_pair_map_at(pairs, at as int);
                    lemma_pair_map_remove(pairs, at as int);
                    lemma_pairs_size_remove(pairs, at as int);
                }
                let entry = self.entries.remove(at);
                self.entry_count = self.entries.len();
                self.size = self.size - (entry.key.len() + entry.value.len());
                proof {
                    assert(self.spec_entries() == pairs.remove(at as int));
                    assert forall|i: int|
                        0 <= i < self.spec_entries().len() implies self@.filter.contains(
                        (#[trigger] self.spec_entries()[i]).0,
                    ) by {
                        let from = if i < at {
                            i
                        } else {
                            i + 1
                        };
                        assert(self.spec_entries()[i] == pairs[from]);
                    }
                }
                Some((entry.key, entry.value))
            },
            Err(at) => {
                proof {
                    lemma_pair_map_absent(self.spec_entries(), key@, at as int);
                }
                None
            },
        }
    }

    /// Removes every entry and resets the counters. The filter keeps
    /// reporting the keys that were set.
    pub fn clear(&mut self)
        requires
            old(self).wf(),
        ensures
            final(self).wf(),
            final(self)@ == old(self)@.clear(),
    {
        self.entries.clear();
        self.entry_count = 0;
        self.size = 0;
        proof {
            assert(self.spec_entries() == Seq::<(Seq<u8>, Seq<u8>)>::empty());
            assert(pair_map(self.spec_entries()) =~= Map::<Seq<u8>, Seq<u8>>::empty());
        }
    }

    /// The entries in ascending key order.
    pub fn entries(&self) -> (entries: Vec<(Vec<u8>, Vec<u8>)>)
        requires
            self.wf(),
        ensures
            pairs_of(entries@) == entries_of(self@.map),
    {
        let mut entries: Vec<(Vec<u8>, Vec<u8>)> = Vec::with_capacity(self.entries.len());
        let mut i: usize = 0;
        while i < self.entries.len()
            invariant
                i <= self.entries@.len(),
                entries@.len() == i,
                forall|j: int|
                    0 <= j < i ==> (#[trigger] entries@[j]).0@ == self.spec_entries()[j].0
                        && entries@[j].1@ == self.spec_entries()[j].1,
            decreases self.entries@.len() - i,
        {
            let entry = &self.entries[i];
            entries.push((slice_to_vec(entry.key.as_slice()), slice_to_vec(entry.value.as_slice())));
            i = i + 1;
        }
        proof {
            assert(pairs_of(entries@) =~= self.spec_entries());
            lemma_entries_of(self.spec_entries());
        }
        entries
    }

    /// The size at which the buffer is due to be flushed, in bytes.
    pub fn capacity(&self) -> (capacity: usize)
        ensures
            capacity == self@.capacity,
    {
        self.capacity
    }

    /// The bytes of all keys and values, in the buffer's unit of size.
    pub fn size(&self) -> (size: usize)
        ensures
            size == self@.size / self.spec_size_unit().spec_to_bytes(1),
            self.spec_size_unit() == SizeUnit::Bytes ==> size == self@.size,
    {
        self.size / self.size_unit.to_bytes(1)
    }

    /// The number of entries.
    pub fn entry_count(&self) -> (count: usize)
        ensures
            count == self@.entry_count,
    {
        self.entry_count
    }

    /// The number of bits of the filter.
    pub fn filter_bits(&self) -> (count: usize)
        ensures
            count == self@.filter.bits.len(),
    {
        self.bloom_filter.num_bits()
    }

    /// The number of probes that the filter makes per key.
    pub fn filter_hashes(&self) -> (count: usize)
        ensures
            count == self@.filter.num_hashes,
    {
        self.bloom_filter.num_hashes()
    }

    /// The unit in which the buffer reports its size.
    pub fn size_unit(&self) -> (unit: SizeUnit)
        ensures
            unit == self.spec_size_unit(),
    {
        self.size_unit
    }

    /// The keys of the stored entries are the keys of the pairs.
    proof fn lemma_keys(&self)
        ensures
            keys_of(self.entries@) == keys_by(self.spec_entries(), pair_key()),
    {
        assert(keys_of(self.entries@) =~= keys_by(self.spec_entries(), pair_key()));
    }
}

/// The filter of a buffer that is in order reports every key of the buffer
/// as possibly present.
pub proof fn lemma_wf_is_covered(table: &MemTable)
    requires
        table.wf(),
    ensures
        forall|key: Seq<u8>| #[trigger]
            table@.map.dom().contains(key) ==> table@.filter.contains(key),
{
    let pairs = table.spec_entries();
    assert forall|key: Seq<u8>| #[trigger] table@.map.dom().contains(key) implies table@.filter.contains(
        key,
    ) by {
        let at = crate::order::place_of(pairs, pair_key(), key);
        assert(crate::order::holds(pairs, pair_key(), key));
        assert(pairs[at].0 == key);
    }
}

/// The entries of `map` in ascending key order.
pub open spec fn entries_of(map: Map<Seq<u8>, Seq<u8>>) -> Seq<(Seq<u8>, Seq<u8>)> {
    choose|pairs: Seq<(Seq<u8>, Seq<u8>)>| sorted_pairs(pairs) && pair_map(pairs) == map
}

/// Sorted pairs are the entries of their map in ascending key order: the
/// map has no other sorted pairs.
pub proof fn lemma_entries_of(pairs: Seq<(Seq<u8>, Seq<u8>)>)
    requires
        sorted_pairs(pairs),
    ensures
        entries_of(pair_map(pairs)) == pairs,
{
    lemma_sorted_unique(entries_of(pair_map(pairs)), pairs);
}

/// The map of a buffer that is in order is the map of its entries in
/// ascending key order.
pub proof fn lemma_wf_is_listed(table: &MemTable)
    requires
        table.wf(),
    ensures
        sorted_pairs(entries_of(table@.map)),
        pair_map(entries_of(table@.map)) == table@.map,
{
    lemma_entries_of(table.spec_entries());
}

/// Two rows of sorted pairs with the same map are the same row.
pub proof fn lemma_sorted_unique(first: Seq<(Seq<u8>, Seq<u8>)>, second: Seq<(Seq<u8>, Seq<u8>)>)
    requires
        sorted_pairs(first),
        sorted_pairs(second),
        pair_map(first) == pair_map(second),
    ensures
        first == second,
    decreases first.len(),
{
    let first_keys = keys_by(first, pair_key());
    let second_keys = keys_by(second, pair_key());
    if first.len() == 0 {
        if second.len() > 0 {
            lemma_pair_map_at(second, 0);
            assert(pair_map(first).dom().contains(second[0].0));
            let at = crate::order::place_of(first, pair_key(), second[0].0);
            assert(crate::order::holds(first, pair_key(), second[0].0));
        }
        assert(first =~= second);
    } else {
        let last = first.len() - 1;
        lemma_pair_map_at(first, last);
        assert(crate::order::holds(second, pair_key(), first[last].0));
        let at = crate::order::place_of(second, pair_key(), first[last].0);
        let end = second.len() - 1;
        lemma_pair_map_at(second, end);
        lemma_pair_map_at(second, at);
        assert(crate::order::holds(first, pair_key(), second[end].0));
        let back = crate::order::place_of(first, pair_key(), second[end].0);
        lemma_pair_map_at(first, back);
        if at < end {
            assert(crate::order::lex_lt(second_keys[at], second_keys[end]));
            assert(first_keys[back] == second_keys[end]);
            assert(first_keys[last] == second_keys[at]);
            if back < last {
                assert(crate::order::lex_lt(first_keys[back], first_keys[last]));
                crate::order::lemma_lex_asymmetric(first_keys[back], first_keys[last]);
            } else {
                crate::order::lemma_lex_irreflexive(first_keys[last]);
            }
        }
        assert(second[end] == first[last]);
        lemma_pair_map_remove(first, last);
        lemma_pair_map_remove(second, end);
        assert(first.remove(last) == first.drop_last());
        assert(second.remove(end) == second.drop_last());
        lemma_sorted_unique(first.drop_last(), second.drop_last());
        assert(first =~= first.drop_last().push(first[last]));
        assert(second =~= second.drop_last().push(second[end]));
    }
}

/// The number of entries to expect in a buffer of `capacity_bytes` bytes.
pub fn expected_entries(capacity_bytes: usize) -> (count: usize)
    ensures
        count == capacity_bytes / 100,
{
    capacity_bytes / AVERAGE_ENTRY_SIZE
}

/// Sorted pairs map the key of pair `at` to its value.
pub proof fn lemma_pair_map_at(pairs: Seq<(Seq<u8>, Seq<u8>)>, at: int)
    requires
        sorted_pairs(pairs),
        0 <= at < pairs.len(),
    ensures
        pair_map(pairs).dom().contains(pairs[at].0),
        pair_map(pairs)[pairs[at].0] == pairs[at].1,
{
    lemma_map_at(pairs, pair_key(), at);
}

/// A key that splits sorted pairs is not in their map.
pub proof fn lemma_pair_map_absent(pairs: Seq<(Seq<u8>, Seq<u8>)>, key: Seq<u8>, at: int)
    requires
        splits_at(keys_by(pairs, pair_key()), key, at),
    ensures
        !pair_map(pairs).dom().contains(key),
{
    lemma_split_absent(keys_by(pairs, pair_key()), key, at);
    lemma_map_absent(pairs, pair_key(), key);
}

/// Putting a pair where its key splits sorted pairs adds it to the map.
pub proof fn lemma_pair_map_insert(
    pairs: Seq<(Seq<u8>, Seq<u8>)>,
    at: int,
    pair: (Seq<u8>, Seq<u8>),
)
    requires
        sorted_pairs(pairs),
        splits_at(keys_by(pairs, pair_key()), pair.0, at),
    ensures
        sorted_pairs(pairs.insert(at, pair)),
        pair_map(pairs.insert(at, pair)) == pair_map(pairs).insert(pair.0, pair.1),
{
    lemma_map_insert(pairs, pair_key(), at, pair);
    assert(pair_map(pairs.insert(at, pair)) =~= pair_map(pairs).insert(pair.0, pair.1));
}

/// Taking a pair out of sorted pairs takes its key out of the map.
pub proof fn lemma_pair_map_remove(pairs: Seq<(Seq<u8>, Seq<u8>)>, at: int)
    requires
        sorted_pairs(pairs),
        0 <= at < pairs.len(),
    ensures
        sorted_pairs(pairs.remove(at)),
        pair_map(pairs.remove(at)) == pair_map(pairs).remove(pairs[at].0),
{
    lemma_map_remove(pairs, pair_key(), at);
    assert(pair_map(pairs.remove(at)) =~= pair_map(pairs).remove(pairs[at].0));
}

/// Replacing a pair by one of the same key replaces its value in the map.
pub proof fn lemma_pair_map_update(
    pairs: Seq<(Seq<u8>, Seq<u8>)>,
    at: int,
    pair: (Seq<u8>, Seq<u8>),
)
    requires
        sorted_pairs(pairs),
        0 <= at < pairs.len(),
        pairs[at].0 == pair.0,
    ensures
        sorted_pairs(pairs.update(at, pair)),
        pair_map(pairs.update(at, pair)) == pair_map(pairs).insert(pair.0, pair.1),
{
    lemma_map_update(pairs, pair_key(), at, pair);
    assert(pair_map(pairs.update(at, pair)) =~= pair_map(pairs).insert(pair.0, pair.1));
}

/// Replacing a pair exchanges its bytes in the size.
pub proof fn lemma_pairs_size_update(
    pairs: Seq<(Seq<u8>, Seq<u8>)>,
    at: int,
    pair: (Seq<u8>, Seq<u8>),
)
    requires
        0 <= at < pairs.len(),
    ensures
        pairs_size(pairs.update(at, pair)) + pairs[at].0.len() + pairs[at].1.len() == pairs_size(
            pairs,
        ) + pair.0.len() + pair.1.len(),
    decreases pairs.len(),
{
    let after = pairs.update(at, pair);
    if at == pairs.len() - 1 {
        assert(after.drop_last() == pairs.drop_last());
    } else {
        lemma_pairs_size_update(pairs.drop_last(), at, pair);
        assert(after.drop_last() == pairs.drop_last().update(at, pair));
        assert(after.last() == pairs.last());
    }
}

/// A pair more adds its bytes to the size.
pub proof fn lemma_pairs_size_insert(
    pairs: Seq<(Seq<u8>, Seq<u8>)>,
    at: int,
    pair: (Seq<u8>, Seq<u8>),
)
    requires
        0 <= at <= pairs.len(),
    ensures
        pairs_size(pairs.insert(at, pair)) == pairs_size(pairs) + pair.0.len() + pair.1.len(),
    decreases pairs.len(),
{
    let after = pairs.insert(at, pair);
    if at == pairs.len() {
        assert(after.drop_last() == pairs);
    } else {
        lemma_pairs_size_insert(pairs.drop_last(), at, pair);
        assert(after.drop_last() == pairs.drop_last().insert(at, pair));
        assert(after.last() == pairs.last());
    }
}

/// A pair less takes its bytes off the size.
pub proof fn lemma_pairs_size_remove(pairs: Seq<(Seq<u8>, Seq<u8>)>, at: int)
    requires
        0 <= at < pairs.len(),
    ensures
        pairs_size(pairs.remove(at)) + pairs[at].0.len() + pairs[at].1.len() == pairs_size(
            pairs,
        ),
    decreases pairs.len(),
{
    let after = pairs.remove(at);
    if at == pairs.len() - 1 {
        assert(after == pairs.drop_last());
    } else {
        lemma_pairs_size_remove(pairs.drop_last(), at);
        assert(after.drop_last() == pairs.drop_last().remove(at));
        assert(after.last() == pairs.last());
    }
}

} // verus!
