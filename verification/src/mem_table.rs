//! A write buffer whose entries carry a timestamp and a deletion marker.
//!
//! The table keeps one entry per key, in ascending key order. Deleting a key
//! leaves a tombstone: an entry without a value, marked as deleted. The table
//! accounts for its size entry by entry: the key's length, the value's length
//! where there is a value, sixteen bytes for the timestamp and one for the
//! marker.

use crate::order::{
    increasing, keyed_map, keys_by, keys_of, lemma_map_absent, lemma_map_at, lemma_map_insert,
    lemma_map_update, lemma_split_absent, search, Keyed,
};
use vstd::prelude::*;
use vstd::slice::slice_to_vec;

verus! {

/// The bytes that an entry's timestamp and deletion marker account for.
pub const ENTRY_OVERHEAD: usize = 17;

/// An entry of the table.
#[derive(Clone, Debug, PartialEq, Eq)]
pub struct MemTableEntry {
    /// The key under which the entry is kept.
    pub key: Vec<u8>,
    /// The value; a tombstone has none.
    pub value: Option<Vec<u8>>,
    /// When the entry was written, in microseconds since the epoch.
    pub timestamp: u128,
    /// Whether the entry is a tombstone.
    pub deleted: bool,
}

/// An entry as a mathematical value.
pub ghost struct EntryView {
    pub key: Seq<u8>,
    pub value: Option<Seq<u8>>,
    pub timestamp: u128,
    pub deleted: bool,
}

impl EntryView {
    /// The entry that a write of `value` under `key` leaves.
    pub open spec fn live(key: Seq<u8>, value: Seq<u8>, timestamp: u128) -> EntryView {
        EntryView { key, value: Some(value), timestamp, deleted: false }
    }

    /// The entry that a deletion of `key` leaves.
    pub open spec fn tombstone(key: Seq<u8>, timestamp: u128) -> EntryView {
        EntryView { key, value: None, timestamp, deleted: true }
    }

    /// The bytes that the entry accounts for.
    pub open spec fn size(self) -> nat {
        self.key.len() + 17 + (match self.value {
            Some(value) => value.len(),
            None => 0,
        })
    }
}

impl View for MemTableEntry {
    type V = EntryView;

    open spec fn view(&self) -> EntryView {
        EntryView {
            key: self.key@,
            value: match self.value {
                Some(value) => Some(value@),
                None => None,
            },
            timestamp: self.timestamp,
            deleted: self.deleted,
        }
    }
}

impl Keyed for MemTableEntry {
    open spec fn key_view(&self) -> Seq<u8> {
        self.key@
    }

    fn key_bytes(&self) -> (key: &[u8]) {
        self.key.as_slice()
    }
}

/// The key of an entry.
pub open spec fn entry_key() -> spec_fn(EntryView) -> Seq<u8> {
    |entry: EntryView| entry.key
}

/// The map from each key of `entries` to its entry.
pub open spec fn entry_map(entries: Seq<EntryView>) -> Map<Seq<u8>, EntryView> {
    keyed_map(entries, entry_key())
}

/// The entry that `entries` keeps under `key`, if it keeps one.
pub open spec fn lookup(entries: Seq<EntryView>, key: Seq<u8>) -> Option<EntryView> {
    if entry_map(entries).dom().contains(key) {
        Some(entry_map(entries)[key])
    } else {
        None
    }
}

/// The bytes that `entries` account for together.
pub open spec fn total_size(entries: Seq<EntryView>) -> nat
    decreases entries.len(),
{
    if entries.len() == 0 {
        0
    } else {
        total_size(entries.drop_last()) + entries.last().size()
    }
}

/// The bytes that `entries` account for under `key`.
pub open spec fn stored_size(entries: Seq<EntryView>, key: Seq<u8>) -> nat {
    match lookup(entries, key) {
        Some(entry) => entry.size(),
        None => 0,
    }
}

/// The entries are in ascending key order, one per key.
pub open spec fn sorted(entries: Seq<EntryView>) -> bool {
    increasing(keys_by(entries, entry_key()))
}

/// Creates an entry.
pub fn new_memtable_entry(key: &[u8], value: Option<&[u8]>, timestamp: u128, deleted: bool) -> (entry:
    MemTableEntry)
    ensures
        entry@ == (EntryView {
            key: key@,
            value: match value {
                Some(value) => Some(value@),
                None => None,
            },
            timestamp,
            deleted,
        }),
{
    MemTableEntry {
        key: slice_to_vec(key),
        value: match value {
            Some(value) => Some(slice_to_vec(value)),
            None => None,
        },
        timestamp,
        deleted,
    }
}

/// The write buffer.
pub struct MemTable {
    entries: Vec<MemTableEntry>,
    size: usize,
}

impl View for MemTable {
    type V = Seq<EntryView>;

    closed spec fn view(&self) -> Seq<EntryView> {
        Seq::new(self.entries@.len(), |i: int| self.entries@[i]@)
    }
}

impl MemTable {
    /// The size that the table accounts for.
    pub closed spec fn spec_size(&self) -> nat {
        self.size as nat
    }

    /// The table is in order: its entries ascend by key, and its size is what
    /// its entries account for.
    pub open spec fn wf(&self) -> bool {
        &&& sorted(self@)
        &&& self.spec_size() == total_size(self@)
    }

    /// An empty table.
    pub fn new() -> (table: Self)
        ensures
            table.wf(),
            table@ == Seq::<EntryView>::empty(),
            table.spec_size() == 0,
    {
        let table = MemTable { entries: Vec::new(), size: 0 };
        assert(table@ == Seq::<EntryView>::empty());
        table
    }

    /// The entries, in ascending key order.
    pub fn entries(&self) -> (entries: &Vec<MemTableEntry>)
        ensures
            entries@.len() == self@.len(),
            forall|i: int| 0 <= i < entries@.len() ==> (#[trigger] entries@[i])@ == self@[i],
    {
        &self.entries
    }

    /// The size that the table accounts for.
    pub fn size(&self) -> (size: usize)
        ensures
            size == self.spec_size(),
    {
        self.size
    }

    /// Writes `value` under `key`, replacing what was kept under `key`.
    pub fn set(&mut self, key: &[u8], value: &[u8], timestamp: u128)
        requires
            old(self).wf(),
            old(self).spec_size() + key@.len() + value@.len() + 17 <= usize::MAX,
        ensures
            final(self).wf(),
            entry_map(final(self)@) == entry_map(old(self)@).insert(
                key@,
                EntryView::live(key@, value@, timestamp),
            ),
            final(self).spec_size() == old(self).spec_size() - stored_size(old(self)@, key@)
                + EntryView::live(key@, value@, timestamp).size(),
    {
        let memtable_entry = new_memtable_entry(key, Some(value), timestamp, false);
        proof {
            self.lemma_keys();
        }
        match self.get_index(key) {
            Ok(id) => {
                proof {
                    lemma_map_at(self@, entry_key(), id as int);
                    lemma_map_update(self@, entry_key(), id as int, memtable_entry@);
                    lemma_total_size_update(self@, id as int, memtable_entry@);
                }
                match &self.entries[id].value {
                    Some(stored_value) => {
                        if value.len() < stored_value.len() {
                            self.size = self.size - (stored_value.len() - value.len());
                        } else {
                            self.size = self.size + (value.len() - stored_value.len());
                        }
                    },
                    None => {
                        self.size = self.size + value.len();
                    },
                }
                self.entries[id] = memtable_entry;
                assert(self@ == old(self)@.update(id as int, memtable_entry@));
            },
            Err(id) => {
                proof {
                    lemma_split_absent(keys_by(self@, entry_key()), key@, id as int);
                    lemma_map_absent(self@, entry_key(), key@);
                    lemma_map_insert(self@, entry_key(), id as int, memtable_entry@);
                    lemma_total_size_insert(self@, id as int, memtable_entry@);
                }
                self.size = self.size + (key.len() + value.len() + 16 + 1);
                self.entries.insert(id, memtable_entry);
                assert(self@ == old(self)@.insert(id as int, memtable_entry@));
            },
        }
    }

    /// The entry kept under `key`: a live entry, a tombstone, or nothing.
    pub fn get(&self, key: &[u8]) -> (entry: Option<&MemTableEntry>)
        requires
            self.wf(),
        ensures
            match entry {
                Some(entry) => lookup(self@, key@) == Some(entry@),
                None => lookup(self@, key@) is None,
            },
    {
        proof {
            self.lemma_keys();
        }
        match self.get_index(key) {
            Ok(id) => {
                proof {
                    lemma_map_at(self@, entry_key(), id as int);
                }
                Some(&self.entries[id])
            },
            Err(id) => {
                proof {
                    lemma_split_absent(keys_by(self@, entry_key()), key@, id as int);
                    lemma_map_absent(self@, entry_key(), key@);
                }
                None
            },
        }
    }

    /// Deletes `key`: a tombstone takes the place of what was kept under it.
    pub fn delete(&mut self, key: &[u8], timestamp: u128)
        requires
            old(self).wf(),
            old(self).spec_size() + key@.len() + 17 <= usize::MAX,
        ensures
            final(self).wf(),
            entry_map(final(self)@) == entry_map(old(self)@).insert(
                key@,
                EntryView::tombstone(key@, timestamp),
            ),
            final(self).spec_size() == old(self).spec_size() - stored_size(old(self)@, key@)
                + EntryView::tombstone(key@, timestamp).size(),
    {
        let memtable_entry = new_memtable_entry(key, None, timestamp, true);
        proof {
            self.lemma_keys();
        }
        match self.get_index(key) {
            Ok(id) => {
                proof {
                    lemma_map_at(self@, entry_key(), id as int);
                    lemma_map_update(self@, entry_key(), id as int, memtable_entry@);
                    lemma_total_size_update(self@, id as int, memtable_entry@);
                }
                match &self.entries[id].value {
                    Some(existed_value) => {
                        self.size = self.size - existed_value.len();
                    },
                    None => {},
                }
                self.entries[id] = memtable_entry;
                assert(self@ == old(self)@.update(id as int, memtable_entry@));
            },
            Err(id) => {
                proof {
                    lemma_split_absent(keys_by(self@, entry_key()), key@, id as int);
                    lemma_map_absent(self@, entry_key(), key@);
                    lemma_map_insert(self@, entry_key(), id as int, memtable_entry@);
                    lemma_total_size_insert(self@, id as int, memtable_entry@);
                }
                self.size = self.size + (key.len() + 16 + 1);
                self.entries.insert(id, memtable_entry);
                assert(self@ == old(self)@.insert(id as int, memtable_entry@));
            },
        }
    }

    /// Where `key` is kept, or where it would have to go.
    fn get_index(&self, key: &[u8]) -> (found: Result<usize, usize>)
        requires
            sorted(self@),
        ensures
            match found {
                Ok(id) => id < self@.len() && self@[id as int].key == key@,
                Err(id) => crate::order::splits_at(keys_by(self@, entry_key()), key@, id as int),
            },
    {
        proof {
            self.lemma_keys();
        }
        search(&self.entries, key)
    }

    /// The keys of the stored entries are the keys of the view.
    proof fn lemma_keys(&self)
        ensures
            keys_of(self.entries@) == keys_by(self@, entry_key()),
    {
        assert(keys_of(self.entries@) =~= keys_by(self@, entry_key()));
    }
}

/// An entry more accounts for its size more.
pub proof fn lemma_total_size_insert(entries: Seq<EntryView>, at: int, entry: EntryView)
    requires
        0 <= at <= entries.len(),
    ensures
        total_size(entries.insert(at, entry)) == total_size(entries) + entry.size(),
    decreases entries.len(),
{
    let after = entries.insert(at, entry);
    if at == entries.len() {
        assert(after.drop_last() == entries);
    } else {
        lemma_total_size_insert(entries.drop_last(), at, entry);
        assert(after.drop_last() == entries.drop_last().insert(at, entry));
        assert(after.last() == entries.last());
    }
}

/// Replacing an entry exchanges what it accounts for.
pub proof fn lemma_total_size_update(entries: Seq<EntryView>, at: int, entry: EntryView)
    requires
        0 <= at < entries.len(),
    ensures
        total_size(entries.update(at, entry)) + entries[at].size() == total_size(entries)
            + entry.size(),
    decreases entries.len(),
{
    let after = entries.update(at, entry);
    if at == entries.len() - 1 {
        assert(after.drop_last() == entries.drop_last());
    } else {
        lemma_total_size_update(entries.drop_last(), at, entry);
        assert(after.drop_last() == entries.drop_last().update(at, entry));
        assert(after.last() == entries.last());
    }
}

} // verus!
