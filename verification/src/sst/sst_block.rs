//! A block: a buffer of bounded size that holds entries one after the other,
//! with an index from each key to where its entry starts.
//!
//! An entry is stored, in little-endian byte order, as
//!
//! ```text
//! [u32 value_len][key_bytes][value_bytes]
//! ```
//!
//! The index locates an entry; the key's length is that of the key looked
//! up, and the value's length stands in front of the entry. Removing an
//! entry zeroes its bytes and takes its key out of the index; the space is
//! not used again.

use crate::bytes::{append_bytes, copy_range};
use crate::error::Error;
use crate::order::{
    absent, holds, increasing, keyed_map, keys_by, keys_of, lemma_increasing_distinct,
    lemma_map_absent, lemma_map_at, lemma_map_insert, lemma_map_remove, lemma_map_update,
    lemma_split_absent, lemma_split_exists, lemma_split_unique, place_of, search, splits_at,
    Keyed,
};
use vstd::bytes::{
    lemma_auto_spec_u32_to_from_le_bytes, spec_u32_from_le_bytes, spec_u32_to_le_bytes,
    u32_from_le_bytes, u32_to_le_bytes,
};
use vstd::prelude::*;
use vstd::slice::slice_subrange;

verus! {

/// The default capacity of a block: four kibibytes.
pub const BLOCK_SIZE: usize = 4096;

/// The bytes that the length in front of an entry takes.
pub const SIZE_OF_U32: usize = 4;

/// Where the entry of a key starts.
pub struct IndexEntry {
    key: Vec<u8>,
    offset: usize,
}

impl View for IndexEntry {
    type V = (Seq<u8>, int);

    closed spec fn view(&self) -> (Seq<u8>, int) {
        (self.key@, self.offset as int)
    }
}

impl Keyed for IndexEntry {
    closed spec fn key_view(&self) -> Seq<u8> {
        self.key@
    }

    fn key_bytes(&self) -> (key: &[u8]) {
        self.key.as_slice()
    }
}

/// The bytes of an entry.
pub open spec fn encoded_entry(key: Seq<u8>, value: Seq<u8>) -> Seq<u8> {
    spec_u32_to_le_bytes(value.len() as u32) + key + value
}

/// The size of an entry.
pub open spec fn entry_size(key: Seq<u8>, value: Seq<u8>) -> nat {
    4 + key.len() + value.len()
}

/// The key of an index slot.
pub open spec fn slot_key() -> spec_fn((Seq<u8>, int)) -> Seq<u8> {
    |slot: (Seq<u8>, int)| slot.0
}

/// The length of the value of the entry that starts at `offset`.
pub open spec fn value_len_at(data: Seq<u8>, offset: int) -> int {
    spec_u32_from_le_bytes(data.subrange(offset, offset + 4)) as int
}

/// Where the entry of `slot` ends.
pub open spec fn slot_end(data: Seq<u8>, slot: (Seq<u8>, int)) -> int {
    slot.1 + 4 + slot.0.len() + value_len_at(data, slot.1)
}

/// The value of the entry of `slot`.
pub open spec fn slot_value(data: Seq<u8>, slot: (Seq<u8>, int)) -> Seq<u8> {
    data.subrange(slot.1 + 4 + slot.0.len(), slot_end(data, slot))
}

/// `data` with the bytes from `from` up to `to` zeroed.
pub open spec fn zeroed(data: Seq<u8>, from: int, to: int) -> Seq<u8> {
    Seq::new(
        data.len(),
        |i: int|
            if from <= i < to {
                0u8
            } else {
                data[i]
            },
    )
}

/// The state of a block: its bytes and its index, a slot per live key in
/// ascending key order.
pub ghost struct BlockView {
    pub data: Seq<u8>,
    pub slots: Seq<(Seq<u8>, int)>,
    pub capacity: nat,
}

impl BlockView {
    /// An empty block.
    pub open spec fn empty(capacity: nat) -> BlockView {
        BlockView { data: Seq::empty(), slots: Seq::empty(), capacity }
    }

    /// The block is in order: the data stays within the capacity, which a
    /// `u32` can count, the index is sorted by key, every indexed entry lies
    /// within the data, and no two of them overlap.
    pub open spec fn wf(self) -> bool {
        &&& self.data.len() <= self.capacity <= u32::MAX
        &&& increasing(keys_by(self.slots, slot_key()))
        &&& forall|i: int|
            0 <= i < self.slots.len() ==> 0 <= (#[trigger] self.slots[i]).1 && slot_end(
                self.data,
                self.slots[i],
            ) <= self.data.len()
        &&& forall|i: int, j: int|
            0 <= i < self.slots.len() && 0 <= j < self.slots.len() && i != j ==> slot_end(
                self.data,
                #[trigger] self.slots[i],
            ) <= (#[trigger] self.slots[j]).1 || slot_end(self.data, self.slots[j])
                <= self.slots[i].1
    }

    /// The live entries: the value by key.
    pub open spec fn entries(self) -> Map<Seq<u8>, Seq<u8>> {
        keyed_map(self.slots, slot_key()).map_values(
            |slot: (Seq<u8>, int)| slot_value(self.data, slot),
        )
    }

    /// Where the entry of `key` starts.
    pub open spec fn offset_of(self, key: Seq<u8>) -> int {
        keyed_map(self.slots, slot_key())[key].1
    }

    /// Whether an entry of `entry_size` bytes is too large for what is left.
    pub open spec fn is_full(self, entry_size: nat) -> bool {
        self.data.len() + entry_size > self.capacity
    }

    /// Whether the index holds `key`.
    pub open spec fn holds(self, key: Seq<u8>) -> bool {
        holds(self.slots, slot_key(), key)
    }

    /// The place of the slot of `key` in the index.
    pub open spec fn slot_of(self, key: Seq<u8>) -> int {
        place_of(self.slots, slot_key(), key)
    }

    /// The block after the entry `(key, value)` was appended: its bytes
    /// follow the data, and the index points `key` at them. The slot of a
    /// new key goes where the index stays sorted.
    pub open spec fn appended(self, key: Seq<u8>, value: Seq<u8>) -> BlockView {
        BlockView {
            data: self.data + encoded_entry(key, value),
            slots: if self.holds(key) {
                self.slots.update(self.slot_of(key), (key, self.data.len() as int))
            } else {
                self.slots.insert(slot_rank(self.slots, key), (key, self.data.len() as int))
            },
            capacity: self.capacity,
        }
    }

    /// The block after the entry of `key` was removed: its bytes, from the
    /// length in front of it to the end of its value, are zeroed, and its
    /// slot is taken out of the index.
    pub open spec fn without(self, key: Seq<u8>) -> BlockView {
        if self.holds(key) {
            BlockView {
                data: zeroed(
                    self.data,
                    self.slots[self.slot_of(key)].1,
                    slot_end(self.data, self.slots[self.slot_of(key)]),
                ),
                slots: self.slots.remove(self.slot_of(key)),
                capacity: self.capacity,
            }
        } else {
            self
        }
    }
}

/// Where the slot of a key that the index does not hold goes: behind the
/// slots of the keys that come before it.
pub open spec fn slot_rank(slots: Seq<(Seq<u8>, int)>, key: Seq<u8>) -> int {
    choose|at: int| splits_at(keys_by(slots, slot_key()), key, at)
}

/// A block.
pub struct Block {
    data: Vec<u8>,
    index: Vec<IndexEntry>,
    capacity: usize,
}

impl View for Block {
    type V = BlockView;

    closed spec fn view(&self) -> BlockView {
        BlockView {
            data: self.data@,
            slots: Seq::new(self.index@.len(), |i: int| self.index@[i]@),
            capacity: self.capacity as nat,
        }
    }
}

impl Block {
    /// The block is in order.
    pub open spec fn wf(&self) -> bool {
        self@.wf()
    }

    /// An empty block of the default capacity.
    pub fn new() -> (block: Self)
        ensures
            block.wf(),
            block@ == BlockView::empty(BLOCK_SIZE as nat),
    {
        Self::with_capacity(BLOCK_SIZE)
    }

    /// An empty block of the given capacity.
    pub fn with_capacity(capacity: usize) -> (block: Self)
        requires
            capacity <= u32::MAX,
        ensures
            block.wf(),
            block@ == BlockView::empty(capacity as nat),
    {
        let block = Block { data: Vec::new(), index: Vec::new(), capacity };
        assert(block@.slots == Seq::<(Seq<u8>, int)>::empty());
        block
    }

    /// Whether an entry of `entry_size` bytes is too large for what is left
    /// of the block.
    pub fn is_full(&self, entry_size: usize) -> (full: bool)
        requires
            self.wf(),
        ensures
            full == self@.is_full(entry_size as nat),
    {
        entry_size > self.capacity - self.data.len()
    }

    /// Appends the entry `(key, value)` and points the index at it, unless
    /// the entry is too large for what is left: then nothing changes and
    /// `BlockFull` is returned.
    pub fn set_entry(&mut self, key: &[u8], value: &[u8]) -> (result: Result<(), Error>)
        requires
            old(self).wf(),
        ensures
            final(self).wf(),
            match result {
                Ok(()) => !old(self)@.is_full(entry_size(key@, value@)) && final(self)@ == old(
                    self,
                )@.appended(key@, value@),
                Err(error) => error == Error::BlockFull && old(self)@.is_full(
                    entry_size(key@, value@),
                ) && final(self)@ == old(self)@,
            },
    {
        let left: usize = self.capacity - self.data.len();
        if left < SIZE_OF_U32 || key.len() > left - SIZE_OF_U32 || value.len() > left
            - SIZE_OF_U32 - key.len() {
            return Err(Error::BlockFull);
        }
        let offset: usize = self.data.len();
        let ghost before = self@;
        let ghost slot = (key@, offset as int);
        proof {
            self.lemma_keys();
        }
        let found = search(&self.index, key);
        let length = u32_to_le_bytes(value.len() as u32);
        append_bytes(&mut self.data, length.as_slice());
        append_bytes(&mut self.data, key);
        append_bytes(&mut self.data, value);
        let entry = IndexEntry { key: copy_range(key, 0, key.len()), offset };
        assert(self.data@ == before.data + encoded_entry(key@, value@));
        assert(entry@ == slot);
        match found {
            Ok(at) => {
                self.index[at] = entry;
                proof {
                    assert(self@.slots == before.slots.update(at as int, slot));
                    lemma_slot_of(before, at as int);
                }
            },
            Err(at) => {
                self.index.insert(at, entry);
                proof {
                    assert(self@.slots == before.slots.insert(at as int, slot));
                    lemma_slot_rank(before, key@, at as int);
                }
            },
        }
        proof {
            lemma_appended(before, key@, value@);
        }
        Ok(())
    }

    /// Removes the entry of `key`: zeroes its bytes and takes `key` out of
    /// the index. Returns whether there was such an entry.
    pub fn remove_entry(&mut self, key: &[u8]) -> (removed: bool)
        requires
            old(self).wf(),
        ensures
            final(self).wf(),
            removed == old(self)@.holds(key@),
            final(self)@ == old(self)@.without(key@),
    {
        let ghost before = self@;
        proof {
            self.lemma_keys();
        }
        match search(&self.index, key) {
            Ok(at) => {
                let start: usize = self.index[at].offset;
                proof {
                    assert(before.slots[at as int] == (key@, start as int));
                }
                let value_len: u32 = u32_from_le_bytes(
                    slice_subrange(self.data.as_slice(), start, start + 4),
                );
                let end: usize = start + SIZE_OF_U32 + key.len() + value_len as usize;
                let mut i: usize = start;
                while i < end
                    invariant
                        start <= i <= end <= self.data@.len(),
                        self.data@ == zeroed(before.data, start as int, i as int),
                        self.index == old(self).index,
                        self.capacity == old(self).capacity,
                    decreases end - i,
                {
                    self.data[i] = 0;
                    assert(self.data@ == zeroed(before.data, start as int, i + 1));
                    i = i + 1;
                }
                self.index.remove(at);
                proof {
                    assert(self@.slots == before.slots.remove(at as int));
                    lemma_slot_of(before, at as int);
                    lemma_without(before, key@);
                }
                true
            },
            Err(at) => {
                proof {
                    lemma_split_absent(keys_by(before.slots, slot_key()), key@, at as int);
                    lemma_map_absent(before.slots, slot_key(), key@);
                }
                false
            },
        }
    }

    /// The value of the entry of `key`.
    pub fn get_value(&self, key: &[u8]) -> (value: Option<Vec<u8>>)
        requires
            self.wf(),
        ensures
            match value {
                Some(value) => self@.entries().dom().contains(key@) && self@.entries()[key@]
                    == value@,
                None => !self@.entries().dom().contains(key@),
            },
    {
        proof {
            self.lemma_keys();
        }
        match search(&self.index, key) {
            Ok(at) => {
                let start: usize = self.index[at].offset;
                proof {
                    lemma_map_at(self@.slots, slot_key(), at as int);
                    assert(self@.slots[at as int] == (key@, start as int));
                }
                let value_len: u32 = u32_from_le_bytes(
                    slice_subrange(self.data.as_slice(), start, start + 4),
                );
                let from: usize = start + SIZE_OF_U32 + key.len();
                Some(copy_range(self.data.as_slice(), from, from + value_len as usize))
            },
            Err(at) => {
                proof {
                    lemma_split_absent(keys_by(self@.slots, slot_key()), key@, at as int);
                    lemma_map_absent(self@.slots, slot_key(), key@);
                }
                None
            },
        }
    }

    /// The number of live entries.
    pub fn entry_count(&self) -> (count: usize)
        ensures
            count == self@.slots.len(),
    {
        self.index.len()
    }

    /// The bytes of the block.
    pub fn data(&self) -> (data: &[u8])
        ensures
            data@ == self@.data,
    {
        self.data.as_slice()
    }

    /// The keys of the index are the keys of the slots.
    proof fn lemma_keys(&self)
        ensures
            keys_of(self.index@) == keys_by(self@.slots, slot_key()),
    {
        assert(keys_of(self.index@) =~= keys_by(self@.slots, slot_key()));
    }
}

/// Slots whose entries hold the same bytes in two buffers end at the same
/// place and give the same values in both.
proof fn lemma_same_values(first: Seq<u8>, second: Seq<u8>, slots: Seq<(Seq<u8>, int)>)
    requires
        first.len() <= second.len(),
        forall|i: int|
            0 <= i < slots.len() ==> 0 <= (#[trigger] slots[i]).1 && slot_end(first, slots[i])
                <= first.len(),
        forall|i: int, k: int|
            0 <= i < slots.len() && (#[trigger] slots[i]).1 <= k < slot_end(first, slots[i])
                ==> #[trigger] second[k] == first[k],
    ensures
        forall|i: int|
            0 <= i < slots.len() ==> slot_end(second, #[trigger] slots[i]) == slot_end(
                first,
                slots[i],
            ) && slot_value(second, slots[i]) == slot_value(first, slots[i]),
{
    assert forall|i: int| 0 <= i < slots.len() implies slot_end(second, #[trigger] slots[i])
        == slot_end(first, slots[i]) && slot_value(second, slots[i]) == slot_value(
        first,
        slots[i],
    ) by {
        let offset = slots[i].1;
        let to = slot_end(first, slots[i]);
        assert(second.subrange(offset, offset + 4) =~= first.subrange(offset, offset + 4)) by {
            assert forall|k: int| offset <= k < offset + 4 implies second[k] == first[k] by {
                assert(slots[i].1 <= k < to);
            }
        }
        let from = offset + 4 + slots[i].0.len();
        assert(second.subrange(from, to) =~= first.subrange(from, to)) by {
            assert forall|k: int| from <= k < to implies second[k] == first[k] by {
                assert(slots[i].1 <= k < to);
            }
        }
    }
}

/// What the entry that was appended last reads as: it ends where the data
/// ends, and its value is the value that was appended.
proof fn lemma_new_slot(data: Seq<u8>, key: Seq<u8>, value: Seq<u8>)
    requires
        value.len() <= u32::MAX,
    ensures
        slot_end(data + encoded_entry(key, value), (key, data.len() as int)) == data.len()
            + entry_size(key, value),
        slot_value(data + encoded_entry(key, value), (key, data.len() as int)) == value,
        (data + encoded_entry(key, value)).len() == data.len() + entry_size(key, value),
{
    lemma_auto_spec_u32_to_from_le_bytes();
    let after = data + encoded_entry(key, value);
    let offset = data.len() as int;
    assert(after.subrange(offset, offset + 4) == spec_u32_to_le_bytes(value.len() as u32));
    assert(after.subrange(offset + 4 + key.len(), offset + 4 + key.len() + value.len())
        == value);
}

/// Appending an entry under a key that the index does not hold.
proof fn lemma_with_entry_insert(
    before: BlockView,
    key: Seq<u8>,
    value: Seq<u8>,
    at: int,
    next: BlockView,
)
    requires
        before.wf(),
        !before.is_full(entry_size(key, value)),
        splits_at(keys_by(before.slots, slot_key()), key, at),
        next.capacity == before.capacity,
        next.data == before.data + encoded_entry(key, value),
        next.slots == before.slots.insert(at, (key, before.data.len() as int)),
    ensures
        next.wf(),
        next.entries() == before.entries().insert(key, value),
        next.offset_of(key) == before.data.len(),
{
    let slot = (key, before.data.len() as int);
    lemma_new_slot(before.data, key, value);
    lemma_same_values(before.data, next.data, before.slots);
    lemma_map_insert(before.slots, slot_key(), at, slot);
    lemma_map_at(next.slots, slot_key(), at);
    assert forall|i: int| 0 <= i < next.slots.len() implies slot_end(
        next.data,
        #[trigger] next.slots[i],
    ) == (if i == at {
        next.data.len() as int
    } else if i < at {
        slot_end(before.data, before.slots[i])
    } else {
        slot_end(before.data, before.slots[i - 1])
    }) && 0 <= next.slots[i].1 by {
        if i < at {
            assert(next.slots[i] == before.slots[i]);
        } else if i > at {
            assert(next.slots[i] == before.slots[i - 1]);
        }
    }
    assert(next.entries() =~= before.entries().insert(key, value));
}

/// Appending an entry under a key that the index holds already.
proof fn lemma_with_entry_update(
    before: BlockView,
    key: Seq<u8>,
    value: Seq<u8>,
    at: int,
    next: BlockView,
)
    requires
        before.wf(),
        !before.is_full(entry_size(key, value)),
        0 <= at < before.slots.len(),
        before.slots[at].0 == key,
        next.capacity == before.capacity,
        next.data == before.data + encoded_entry(key, value),
        next.slots == before.slots.update(at, (key, before.data.len() as int)),
    ensures
        next.wf(),
        next.entries() == before.entries().insert(key, value),
        next.offset_of(key) == before.data.len(),
{
    let slot = (key, before.data.len() as int);
    lemma_new_slot(before.data, key, value);
    lemma_same_values(before.data, next.data, before.slots);
    lemma_map_update(before.slots, slot_key(), at, slot);
    lemma_map_at(next.slots, slot_key(), at);
    assert forall|i: int| 0 <= i < next.slots.len() implies slot_end(
        next.data,
        #[trigger] next.slots[i],
    ) == (if i == at {
        next.data.len() as int
    } else {
        slot_end(before.data, before.slots[i])
    }) && 0 <= next.slots[i].1 by {
        if i != at {
            assert(next.slots[i] == before.slots[i]);
        }
    }
    assert(next.entries() =~= before.entries().insert(key, value));
}

/// Zeroing an entry and taking its key out of the index.
proof fn lemma_without_entry(before: BlockView, at: int, next: BlockView)
    requires
        before.wf(),
        0 <= at < before.slots.len(),
        next.capacity == before.capacity,
        next.data == zeroed(
            before.data,
            before.slots[at].1,
            slot_end(before.data, before.slots[at]),
        ),
        next.slots == before.slots.remove(at),
    ensures
        next.wf(),
        next.entries() == before.entries().remove(before.slots[at].0),
{
    let slot = before.slots[at];
    let key = slot.0;
    lemma_map_at(before.slots, slot_key(), at);
    lemma_map_remove(before.slots, slot_key(), at);
    assert forall|j: int| 0 <= j < next.slots.len() implies 0 <= (#[trigger] next.slots[j]).1
        && slot_end(before.data, next.slots[j]) <= before.data.len() by {
        let from = if j < at {
            j
        } else {
            j + 1
        };
        assert(next.slots[j] == before.slots[from]);
    }
    assert forall|j: int, k: int|
        0 <= j < next.slots.len() && (#[trigger] next.slots[j]).1 <= k < slot_end(
            before.data,
            next.slots[j],
        ) implies #[trigger] next.data[k] == before.data[k] by {
        let from = if j < at {
            j
        } else {
            j + 1
        };
        assert(next.slots[j] == before.slots[from]);
        assert(slot_end(before.data, before.slots[from]) <= slot.1 || slot_end(
            before.data,
            slot,
        ) <= before.slots[from].1);
    }
    lemma_same_values(before.data, next.data, next.slots);
    assert forall|i: int, j: int|
        0 <= i < next.slots.len() && 0 <= j < next.slots.len() && i != j implies slot_end(
        next.data,
        #[trigger] next.slots[i],
    ) <= (#[trigger] next.slots[j]).1 || slot_end(next.data, next.slots[j])
        <= next.slots[i].1 by {
        let from_i = if i < at {
            i
        } else {
            i + 1
        };
        let from_j = if j < at {
            j
        } else {
            j + 1
        };
        assert(next.slots[i] == before.slots[from_i]);
        assert(next.slots[j] == before.slots[from_j]);
    }
    assert(next.entries() =~= before.entries().remove(key));
}

/// The slot at a place of a sorted index is the slot of its key.
pub proof fn lemma_slot_of(block: BlockView, at: int)
    requires
        increasing(keys_by(block.slots, slot_key())),
        0 <= at < block.slots.len(),
    ensures
        block.holds(block.slots[at].0),
        block.slot_of(block.slots[at].0) == at,
{
    let keys = keys_by(block.slots, slot_key());
    let key = block.slots[at].0;
    assert(block.holds(key));
    let place = block.slot_of(key);
    assert(keys[place] == keys[at]);
    lemma_increasing_distinct(keys, place, at);
}

/// A key that splits a sorted index is not held by it, and its slot would
/// go where it splits the index.
pub proof fn lemma_slot_rank(block: BlockView, key: Seq<u8>, at: int)
    requires
        splits_at(keys_by(block.slots, slot_key()), key, at),
    ensures
        !block.holds(key),
        slot_rank(block.slots, key) == at,
{
    let keys = keys_by(block.slots, slot_key());
    lemma_split_absent(keys, key, at);
    if block.holds(key) {
        let place = block.slot_of(key);
        assert(keys[place] == key);
    }
    lemma_split_unique(keys, key, at, slot_rank(block.slots, key));
}

/// What appending an entry does to a block that has room for it: the block
/// stays in order, its entries are those of before with the new entry, and
/// the index points the key at where the data ended.
pub proof fn lemma_appended(block: BlockView, key: Seq<u8>, value: Seq<u8>)
    requires
        block.wf(),
        !block.is_full(entry_size(key, value)),
    ensures
        block.appended(key, value).wf(),
        block.appended(key, value).entries() == block.entries().insert(key, value),
        block.appended(key, value).offset_of(key) == block.data.len(),
{
    let keys = keys_by(block.slots, slot_key());
    if block.holds(key) {
        let at = block.slot_of(key);
        lemma_with_entry_update(block, key, value, at, block.appended(key, value));
    } else {
        assert(absent(keys, key)) by {
            assert forall|i: int| 0 <= i < keys.len() implies #[trigger] keys[i] != key by {
                if keys[i] == key {
                    assert(slot_key()(block.slots[i]) == key);
                }
            }
        }
        let at = lemma_split_exists(keys, key);
        lemma_slot_rank(block, key, at);
        lemma_with_entry_insert(block, key, value, at, block.appended(key, value));
    }
}

/// What removing a key does to a block: the block stays in order, and its
/// entries are those of before without the key.
pub proof fn lemma_without(block: BlockView, key: Seq<u8>)
    requires
        block.wf(),
    ensures
        block.without(key).wf(),
        block.without(key).entries() == block.entries().remove(key),
        block.holds(key) == block.entries().dom().contains(key),
{
    if block.holds(key) {
        let at = block.slot_of(key);
        lemma_without_entry(block, at, block.without(key));
    } else {
        assert(block.entries().remove(key) =~= block.entries());
    }
}

} // verus!
