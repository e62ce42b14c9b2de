//! A writer that collects entries, sorts them by key and compresses them
//! into the image of a table file.
//!
//! In the image the entries follow each other in ascending key order; each
//! is its key followed by its value, compressed as an LZ4 block by the crate
//! `lz4_flex`.

use crate::bytes::append_bytes;
use crate::order::{compare_keys, lemma_lex_total, lex_lt, Order};
use vstd::prelude::*;

verus! {

/// What `lz4_flex::block::compress` returns for `input` on the target that
/// the library was built for: the LZ4 block that holds `input` in compressed
/// form.
pub uninterp spec fn lz4_block(input: Seq<u8>) -> Seq<u8>;

/// `lz4_flex::block::compress`: compresses `input` into an LZ4 block. On one
/// build target the block is a function of the input alone; between targets
/// it may differ, as the crate picks its hash by pointer width and byte
/// order. The crate sizes its output buffer by `input.len() * 110 / 100 +
/// 20`, so that product must not overflow.
#[verifier::external_body]
fn lz4_compress(input: &[u8]) -> (output: Vec<u8>)
    requires
        input@.len() * 110 <= usize::MAX,
    ensures
        output@ == lz4_block(input@),
{
    lz4_flex::block::compress(input)
}

/// An entry that waits to be written.
#[derive(Clone, Debug, PartialEq, Eq)]
pub struct SSTableEntry {
    pub key: Vec<u8>,
    pub value: Vec<u8>,
    pub timestamp: u64,
}

/// An entry as a mathematical value.
pub ghost struct WriterEntry {
    pub key: Seq<u8>,
    pub value: Seq<u8>,
    pub timestamp: u64,
}

impl View for SSTableEntry {
    type V = WriterEntry;

    open spec fn view(&self) -> WriterEntry {
        WriterEntry { key: self.key@, value: self.value@, timestamp: self.timestamp }
    }
}

/// The entries `sorted` with `entry` put behind the last entry whose key
/// does not come after the key of `entry`.
pub open spec fn inserted(sorted: Seq<WriterEntry>, entry: WriterEntry) -> Seq<WriterEntry>
    decreases sorted.len(),
{
    if sorted.len() == 0 {
        seq![entry]
    } else if lex_lt(entry.key, sorted.last().key) {
        inserted(sorted.drop_last(), entry).push(sorted.last())
    } else {
        sorted.push(entry)
    }
}

/// The entries in ascending key order, entries of the same key in the order
/// in which they came.
pub open spec fn sorted_by_key(entries: Seq<WriterEntry>) -> Seq<WriterEntry>
    decreases entries.len(),
{
    if entries.len() == 0 {
        Seq::empty()
    } else {
        inserted(sorted_by_key(entries.drop_last()), entries.last())
    }
}

/// No entry has a key that comes before the key of an entry in front of it.
pub open spec fn ascending(entries: Seq<WriterEntry>) -> bool {
    forall|i: int, j: int|
        0 <= i < j < entries.len() ==> !lex_lt(
            (#[trigger] entries[j]).key,
            (#[trigger] entries[i]).key,
        )
}

/// The image of the entries: each entry's key and compressed value, entry
/// after entry.
pub open spec fn compressed_image(entries: Seq<WriterEntry>) -> Seq<u8>
    decreases entries.len(),
{
    if entries.len() == 0 {
        Seq::empty()
    } else {
        compressed_image(entries.drop_last()) + entries.last().key + lz4_block(
            entries.last().value,
        )
    }
}

/// Every value is short enough to be compressed.
pub open spec fn compressible(entries: Seq<WriterEntry>) -> bool {
    forall|i: int| 0 <= i < entries.len() ==> (#[trigger] entries[i]).value.len() * 110 <= usize::MAX
}

/// Appends an entry to an image: its key and its value in compressed form.
pub fn append_compressed_entry(image: &mut Vec<u8>, key: &[u8], compressed_value: &[u8])
    ensures
        final(image)@ == old(image)@ + key@ + compressed_value@,
{
    append_bytes(image, key);
    append_bytes(image, compressed_value);
}

/// The writer.
pub struct SSTableWriter {
    file_path: String,
    entry_count: usize,
    sorted_entries: Vec<SSTableEntry>,
    current_level: u32,
    timestamp: u64,
}

impl View for SSTableWriter {
    type V = Seq<WriterEntry>;

    closed spec fn view(&self) -> Seq<WriterEntry> {
        Seq::new(self.sorted_entries@.len(), |i: int| self.sorted_entries@[i]@)
    }
}

impl SSTableWriter {
    /// The path of the file that the writer writes for.
    pub closed spec fn spec_file_path(&self) -> Seq<char> {
        self.file_path@
    }

    /// The level of the table.
    pub closed spec fn spec_level(&self) -> u32 {
        self.current_level
    }

    /// When the table was begun.
    pub closed spec fn spec_timestamp(&self) -> u64 {
        self.timestamp
    }

    /// The number of entries that were handed to the writer.
    pub closed spec fn spec_entry_count(&self) -> usize {
        self.entry_count
    }

    /// The writer counts the entries that it holds.
    pub open spec fn wf(&self) -> bool {
        self.spec_entry_count() == self@.len()
    }

    /// A writer without entries.
    pub fn new(file_path: String, current_level: u32, timestamp: u64) -> (writer: Self)
        ensures
            writer.wf(),
            writer@ == Seq::<WriterEntry>::empty(),
            writer.spec_file_path() == file_path@,
            writer.spec_level() == current_level,
            writer.spec_timestamp() == timestamp,
    {
        let writer = SSTableWriter {
            file_path,
            entry_count: 0,
            sorted_entries: Vec::new(),
            current_level,
            timestamp,
        };
        assert(writer@ == Seq::<WriterEntry>::empty());
        writer
    }

    /// Hands an entry to the writer.
    pub fn write_entry(&mut self, key: Vec<u8>, value: Vec<u8>, timestamp: u64)
        requires
            old(self).wf(),
        ensures
            final(self).wf(),
            final(self)@ == old(self)@.push(WriterEntry { key: key@, value: value@, timestamp }),
            final(self).spec_file_path() == old(self).spec_file_path(),
            final(self).spec_level() == old(self).spec_level(),
            final(self).spec_timestamp() == old(self).spec_timestamp(),
    {
        let sst_entry = SSTableEntry { key, value, timestamp };
        self.sorted_entries.push(sst_entry);
        self.entry_count = self.sorted_entries.len();
        assert(self@ == old(self)@.push(WriterEntry { key: key@, value: value@, timestamp }));
    }

    /// Whether the table file has reached `capacity`. `file_size` is the
    /// size of the file, or `None` where the file cannot be examined: then
    /// the table counts as not full.
    pub fn is_full(&self, file_size: Option<usize>, capacity: usize) -> (full: bool)
        ensures
            full == (match file_size {
                Some(size) => size >= capacity,
                None => false,
            }),
    {
        match file_size {
            Some(size) => size >= capacity,
            None => false,
        }
    }

    /// Sorts the entries and returns their image, which is to be appended to
    /// the table file.
    pub fn finalize(&mut self) -> (image: Vec<u8>)
        requires
            old(self).wf(),
            compressible(old(self)@),
        ensures
            final(self).wf(),
            final(self)@ == sorted_by_key(old(self)@),
            image@ == compressed_image(sorted_by_key(old(self)@)),
    {
        self.sort_entries();
        proof {
            lemma_sorted_is_compressible(old(self)@);
        }
        self.compress_entries()
    }

    /// Sorts the entries by key. Entries of the same key stay in the order
    /// in which they came.
    pub fn sort_entries(&mut self)
        requires
            old(self).wf(),
        ensures
            final(self).wf(),
            final(self)@ == sorted_by_key(old(self)@),
            final(self).spec_file_path() == old(self).spec_file_path(),
            final(self).spec_level() == old(self).spec_level(),
            final(self).spec_timestamp() == old(self).spec_timestamp(),
    {
        let length: usize = self.sorted_entries.len();
        let mut i: usize = 0;
        proof {
            assert(old(self)@.subrange(0, 0) == Seq::<WriterEntry>::empty());
            assert(self@.subrange(0, 0) == Seq::<WriterEntry>::empty());
        }
        while i < length
            invariant
                i <= length,
                length == old(self)@.len(),
                self@.len() == length,
                self.entry_count == old(self).entry_count,
                self.file_path == old(self).file_path,
                self.current_level == old(self).current_level,
                self.timestamp == old(self).timestamp,
                self@.subrange(0, i as int) == sorted_by_key(old(self)@.subrange(0, i as int)),
                self@.subrange(i as int, length as int) == old(self)@.subrange(
                    i as int,
                    length as int,
                ),
            decreases length - i,
        {
            let ghost before = self@;
            let ghost front = before.subrange(0, i as int);
            let ghost entry = before[i as int];
            let mut at: usize = i;
            let mut searching: bool = true;
            while searching && at > 0
                invariant
                    at <= i < length,
                    self@ == before,
                    self@.len() == length,
                    front == before.subrange(0, i as int),
                    entry == before[i as int],
                    forall|k: int| at <= k < i ==> lex_lt(entry.key, (#[trigger] front[k]).key),
                    !searching ==> at > 0 && !lex_lt(entry.key, front[at - 1].key),
                decreases at + (if searching {
                    1int
                } else {
                    0int
                }),
            {
                assert(self@[i as int] == self.sorted_entries@[i as int]@);
                assert(self@[at - 1] == self.sorted_entries@[at - 1]@);
                assert(front[at - 1] == before[at - 1]);
                match compare_keys(
                    self.sorted_entries[i].key.as_slice(),
                    self.sorted_entries[at - 1].key.as_slice(),
                ) {
                    Order::Less => {
                        at = at - 1;
                    },
                    Order::Equal => {
                        proof {
                            crate::order::lemma_lex_irreflexive(entry.key);
                        }
                        searching = false;
                    },
                    Order::Greater => {
                        proof {
                            crate::order::lemma_lex_asymmetric(front[at - 1].key, entry.key);
                        }
                        searching = false;
                    },
                }
            }
            let moved = self.sorted_entries.remove(i);
            self.sorted_entries.insert(at, moved);
            proof {
                lemma_inserted_at(front, entry, at as int);
                assert(old(self)@.subrange(0, i + 1).drop_last() == old(self)@.subrange(
                    0,
                    i as int,
                ));
                assert(old(self)@.subrange(0, i + 1).last() == entry) by {
                    assert(before.subrange(i as int, length as int)[0] == entry);
                }
                assert(self@.subrange(0, i + 1) == front.insert(at as int, entry));
                assert(self@.subrange(i + 1, length as int) == old(self)@.subrange(
                    i + 1,
                    length as int,
                )) by {
                    assert forall|k: int| i + 1 <= k < length implies #[trigger] self@[k] == old(
                        self,
                    )@[k] by {
                        assert(before.subrange(i as int, length as int)[k - i] == old(
                            self,
                        )@.subrange(i as int, length as int)[k - i]);
                        assert(self@[k] == before[k]);
                    }
                }
            }
            i = i + 1;
        }
        proof {
            assert(self@.subrange(0, length as int) == self@);
            assert(old(self)@.subrange(0, length as int) == old(self)@);
        }
    }

    /// The image of the entries in the order in which the writer holds them.
    pub fn compress_entries(&self) -> (compressed_data: Vec<u8>)
        requires
            compressible(self@),
        ensures
            compressed_data@ == compressed_image(self@),
    {
        let mut compressed_data: Vec<u8> = Vec::new();
        let mut i: usize = 0;
        proof {
            assert(self@.subrange(0, 0) == Seq::<WriterEntry>::empty());
        }
        while i < self.sorted_entries.len()
            invariant
                i <= self@.len(),
                self@.len() == self.sorted_entries@.len(),
                compressible(self@),
                compressed_data@ == compressed_image(self@.subrange(0, i as int)),
            decreases self@.len() - i,
        {
            let entry = &self.sorted_entries[i];
            proof {
                assert(self@[i as int] == entry@);
                assert(self@.subrange(0, i + 1).drop_last() == self@.subrange(0, i as int));
                assert(self@.subrange(0, i + 1).last() == entry@);
            }
            let compressed_value = lz4_compress(entry.value.as_slice());
            append_compressed_entry(
                &mut compressed_data,
                entry.key.as_slice(),
                compressed_value.as_slice(),
            );
            i = i + 1;
        }
        proof {
            assert(self@.subrange(0, i as int) == self@);
        }
        compressed_data
    }

    /// The entries in the order in which the writer holds them.
    pub fn entries(&self) -> (entries: &Vec<SSTableEntry>)
        ensures
            entries@.len() == self@.len(),
            forall|i: int| 0 <= i < entries@.len() ==> (#[trigger] entries@[i])@ == self@[i],
    {
        &self.sorted_entries
    }

    /// The number of entries that were handed to the writer.
    pub fn entry_count(&self) -> (count: usize)
        ensures
            count == self.spec_entry_count(),
    {
        self.entry_count
    }

    /// The path of the file that the writer writes for.
    pub fn file_path(&self) -> (path: &str)
        ensures
            path@ == self.spec_file_path(),
    {
        self.file_path.as_str()
    }
}

/// Where an entry goes among sorted entries: behind the entries from `at`
/// on come after it, and the entry in front of `at` does not.
pub proof fn lemma_inserted_at(sorted: Seq<WriterEntry>, entry: WriterEntry, at: int)
    requires
        0 <= at <= sorted.len(),
        forall|k: int| at <= k < sorted.len() ==> lex_lt(entry.key, (#[trigger] sorted[k]).key),
        at > 0 ==> !lex_lt(entry.key, sorted[at - 1].key),
    ensures
        inserted(sorted, entry) == sorted.insert(at, entry),
    decreases sorted.len(),
{
    if sorted.len() == 0 {
        assert(sorted.insert(0, entry) == seq![entry]);
    } else if at == sorted.len() {
        assert(sorted.insert(at, entry) == sorted.push(entry));
    } else {
        assert(lex_lt(entry.key, sorted[sorted.len() - 1].key));
        assert forall|k: int| at <= k < sorted.drop_last().len() implies lex_lt(
            entry.key,
            (#[trigger] sorted.drop_last()[k]).key,
        ) by {
            assert(sorted.drop_last()[k] == sorted[k]);
        }
        if at > 0 {
            assert(sorted.drop_last()[at - 1] == sorted[at - 1]);
        }
        lemma_inserted_at(sorted.drop_last(), entry, at);
        assert(sorted.drop_last().insert(at, entry).push(sorted.last()) == sorted.insert(
            at,
            entry,
        ));
    }
}

/// Where an entry stands after it was put among entries, and where the
/// others stand.
pub proof fn lemma_inserted_place(sorted: Seq<WriterEntry>, entry: WriterEntry) -> (at: int)
    ensures
        0 <= at <= sorted.len(),
        inserted(sorted, entry) == sorted.insert(at, entry),
        forall|k: int| at <= k < sorted.len() ==> lex_lt(entry.key, (#[trigger] sorted[k]).key),
        at > 0 ==> !lex_lt(entry.key, sorted[at - 1].key),
    decreases sorted.len(),
{
    if sorted.len() == 0 {
        assert(sorted.insert(0, entry) == seq![entry]);
        0
    } else if lex_lt(entry.key, sorted.last().key) {
        let at = lemma_inserted_place(sorted.drop_last(), entry);
        assert forall|k: int| at <= k < sorted.len() implies lex_lt(
            entry.key,
            (#[trigger] sorted[k]).key,
        ) by {
            if k < sorted.len() - 1 {
                assert(sorted.drop_last()[k] == sorted[k]);
            }
        }
        if at > 0 {
            assert(sorted.drop_last()[at - 1] == sorted[at - 1]);
        }
        assert(sorted.drop_last().insert(at, entry).push(sorted.last()) == sorted.insert(
            at,
            entry,
        ));
        at
    } else {
        assert(sorted.insert(sorted.len() as int, entry) == sorted.push(entry));
        sorted.len() as int
    }
}

/// Sorted entries ascend by key.
pub proof fn lemma_sorted_is_ascending(entries: Seq<WriterEntry>)
    ensures
        ascending(sorted_by_key(entries)),
        sorted_by_key(entries).len() == entries.len(),
    decreases entries.len(),
{
    if entries.len() > 0 {
        let front = sorted_by_key(entries.drop_last());
        let entry = entries.last();
        lemma_sorted_is_ascending(entries.drop_last());
        let at = lemma_inserted_place(front, entry);
        let after = front.insert(at, entry);
        assert forall|i: int, j: int| 0 <= i < j < after.len() implies !lex_lt(
            (#[trigger] after[j]).key,
            (#[trigger] after[i]).key,
        ) by {
            if j < at {
                assert(after[i] == front[i] && after[j] == front[j]);
            } else if j == at {
                assert(after[i] == front[i]);
                if i < at - 1 {
                    assert(!lex_lt(front[at - 1].key, front[i].key));
                    if lex_lt(entry.key, front[i].key) {
                        lemma_lex_total(entry.key, front[at - 1].key);
                        if entry.key != front[at - 1].key {
                            crate::order::lemma_lex_transitive(
                                front[at - 1].key,
                                entry.key,
                                front[i].key,
                            );
                        }
                    }
                }
            } else if i < at {
                assert(after[i] == front[i] && after[j] == front[j - 1]);
            } else if i == at {
                assert(after[j] == front[j - 1]);
                crate::order::lemma_lex_asymmetric(entry.key, front[j - 1].key);
            } else {
                assert(after[i] == front[i - 1] && after[j] == front[j - 1]);
            }
        }
    }
}

/// Sorting keeps the entries: each entry is there as often as before.
pub proof fn lemma_sorted_is_permutation(entries: Seq<WriterEntry>)
    ensures
        sorted_by_key(entries).to_multiset() == entries.to_multiset(),
    decreases entries.len(),
{
    broadcast use vstd::seq_lib::group_to_multiset_ensures;

    if entries.len() > 0 {
        let front = sorted_by_key(entries.drop_last());
        let entry = entries.last();
        lemma_sorted_is_permutation(entries.drop_last());
        let at = lemma_inserted_place(front, entry);
        assert(entries.drop_last().push(entry) == entries);
        assert(front.insert(at, entry).to_multiset() == front.to_multiset().insert(entry));
    } else {
        assert(entries == Seq::<WriterEntry>::empty());
    }
}

/// Sorted entries can be compressed where the entries can.
pub proof fn lemma_sorted_is_compressible(entries: Seq<WriterEntry>)
    requires
        compressible(entries),
    ensures
        compressible(sorted_by_key(entries)),
    decreases entries.len(),
{
    if entries.len() > 0 {
        let front = sorted_by_key(entries.drop_last());
        let entry = entries.last();
        assert(compressible(entries.drop_last())) by {
            assert forall|i: int| 0 <= i < entries.drop_last().len() implies (
            #[trigger] entries.drop_last()[i]).value.len() * 110 <= usize::MAX by {
                assert(entries.drop_last()[i] == entries[i]);
            }
        }
        lemma_sorted_is_compressible(entries.drop_last());
        let at = lemma_inserted_place(front, entry);
        let after = front.insert(at, entry);
        assert forall|i: int| 0 <= i < after.len() implies (#[trigger] after[i]).value.len() * 110
            <= usize::MAX by {
            if i < at {
                assert(after[i] == front[i]);
            } else if i > at {
                assert(after[i] == front[i - 1]);
            }
        }
    }
}

} // verus!
