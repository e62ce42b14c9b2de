//! The write-ahead log: an append-only stream of framed records.
//!
//! A record is framed, in little-endian byte order, as
//!
//! ```text
//! [u32 entry_len][u8 kind][u32 key_len][u32 val_len][key_bytes][val_bytes]
//! ```
//!
//! where `entry_len` counts the thirteen header bytes, the key and the value,
//! and `kind` is 1 for an insert and 2 for a remove. Frames follow each other
//! without a separator.
//!
//! [`WriteAheadLog`] holds the image of the log. Keeping the file
//! `lsmdb_wal.bin` equal to that image is the caller's part: it writes a
//! record's frame to the file before it applies the record here.

use crate::bytes::{append_bytes, copy_range};
use crate::error::WalError;
use vstd::bytes::{
    lemma_auto_spec_u32_to_from_le_bytes, spec_u32_from_le_bytes, spec_u32_to_le_bytes,
    u32_from_le_bytes, u32_to_le_bytes,
};
use vstd::prelude::*;
use vstd::slice::slice_subrange;

verus! {

/// The name of the log file inside the log directory.
pub const WAL_FILE_NAME: &'static str = "lsmdb_wal.bin";

/// The number of bytes in front of a frame's key.
pub const HEADER_LEN: usize = 13;

/// What a record asks for.
#[derive(Clone, Copy, Debug, PartialEq, Eq, Structural)]
pub enum EntryKind {
    Insert,
    Remove,
}

impl EntryKind {
    /// The byte that stands for the kind in a frame.
    pub open spec fn spec_code(self) -> u8 {
        match self {
            EntryKind::Insert => 1,
            EntryKind::Remove => 2,
        }
    }

    /// The kind that a frame's kind byte stands for.
    pub open spec fn spec_from_code(code: u8) -> Option<EntryKind> {
        if code == 1 {
            Some(EntryKind::Insert)
        } else if code == 2 {
            Some(EntryKind::Remove)
        } else {
            None
        }
    }

    /// The byte that stands for the kind in a frame.
    pub fn code(&self) -> (code: u8)
        ensures
            code == self.spec_code(),
    {
        match self {
            EntryKind::Insert => 1,
            EntryKind::Remove => 2,
        }
    }

    /// The kind that a frame's kind byte stands for, if it stands for one.
    pub fn from_code(code: u8) -> (kind: Option<EntryKind>)
        ensures
            kind == EntryKind::spec_from_code(code),
    {
        if code == 1 {
            Some(EntryKind::Insert)
        } else if code == 2 {
            Some(EntryKind::Remove)
        } else {
            None
        }
    }
}

/// A log record as a mathematical value.
pub ghost struct Record {
    pub kind: EntryKind,
    pub key: Seq<u8>,
    pub value: Seq<u8>,
}

impl Record {
    /// The length of the record's frame.
    pub open spec fn frame_len(self) -> nat {
        13 + self.key.len() + self.value.len()
    }

    /// Whether the frame's length fields can hold the record's lengths.
    pub open spec fn fits(self) -> bool {
        self.frame_len() <= u32::MAX
    }

    /// The record's frame.
    pub open spec fn frame(self) -> Seq<u8> {
        spec_u32_to_le_bytes(self.frame_len() as u32) + seq![self.kind.spec_code()]
            + spec_u32_to_le_bytes(self.key.len() as u32) + spec_u32_to_le_bytes(
            self.value.len() as u32,
        ) + self.key + self.value
    }
}

/// The little-endian `u32` that `bytes` holds at `at`.
pub open spec fn field(bytes: Seq<u8>, at: int) -> int {
    spec_u32_from_le_bytes(bytes.subrange(at, at + 4)) as int
}

/// The record that `bytes` is the frame of, or why it is no frame.
///
/// The checks are made in this order: the header is complete, the declared
/// frame length is the length of `bytes`, the kind byte is known, and header,
/// key length and value length add up to the frame length.
pub open spec fn parse_frame(bytes: Seq<u8>) -> Result<Record, WalError> {
    if bytes.len() < 13 {
        Err(WalError::TooShort)
    } else if field(bytes, 0) != bytes.len() {
        Err(WalError::LengthMismatch)
    } else if EntryKind::spec_from_code(bytes[4]) is None {
        Err(WalError::InvalidKind)
    } else if 13 + field(bytes, 5) + field(bytes, 9) != bytes.len() {
        Err(WalError::FieldMismatch)
    } else {
        Ok(
            Record {
                kind: EntryKind::spec_from_code(bytes[4])->0,
                key: bytes.subrange(13, 13 + field(bytes, 5)),
                value: bytes.subrange(13 + field(bytes, 5), bytes.len() as int),
            },
        )
    }
}

/// The log that holds `records` in this order.
pub open spec fn log_bytes(records: Seq<Record>) -> Seq<u8>
    decreases records.len(),
{
    if records.len() == 0 {
        Seq::empty()
    } else {
        records[0].frame() + log_bytes(records.subrange(1, records.len() as int))
    }
}

/// Whether every record of `records` fits a frame.
pub open spec fn all_fit(records: Seq<Record>) -> bool {
    forall|i: int| 0 <= i < records.len() ==> (#[trigger] records[i]).fits()
}

/// The records that the log `bytes` holds, in the order of the log, or the
/// defect of its first malformed frame.
///
/// A log is read frame by frame from its start. Where bytes remain, a whole
/// header must remain, the declared frame length must cover the header and
/// stay within what remains, and the frame must parse.
pub open spec fn parse_log(bytes: Seq<u8>) -> Result<Seq<Record>, WalError>
    decreases bytes.len(),
{
    if bytes.len() == 0 {
        Ok(Seq::empty())
    } else if bytes.len() < 13 {
        Err(WalError::TooShort)
    } else if field(bytes, 0) < 13 || field(bytes, 0) > bytes.len() {
        Err(WalError::LengthMismatch)
    } else {
        match parse_frame(bytes.subrange(0, field(bytes, 0))) {
            Err(defect) => Err(defect),
            Ok(record) => match parse_log(
                bytes.subrange(field(bytes, 0), bytes.len() as int),
            ) {
                Err(defect) => Err(defect),
                Ok(rest) => Ok(seq![record] + rest),
            },
        }
    }
}

/// One record of the log.
#[derive(Clone, Debug, PartialEq, Eq)]
pub struct WriteAheadLogEntry {
    pub entry_kind: EntryKind,
    pub key: Vec<u8>,
    pub value: Vec<u8>,
}

impl View for WriteAheadLogEntry {
    type V = Record;

    open spec fn view(&self) -> Record {
        Record { kind: self.entry_kind, key: self.key@, value: self.value@ }
    }
}

/// The records that `entries` stand for.
pub open spec fn records_of(entries: Seq<WriteAheadLogEntry>) -> Seq<Record> {
    entries.map_values(|entry: WriteAheadLogEntry| entry@)
}

/// What a decoding result stands for.
pub open spec fn decoded(result: Result<WriteAheadLogEntry, WalError>) -> Result<Record, WalError> {
    match result {
        Ok(entry) => Ok(entry@),
        Err(defect) => Err(defect),
    }
}

/// What a replay result stands for.
pub open spec fn replayed(result: Result<Vec<WriteAheadLogEntry>, WalError>) -> Result<
    Seq<Record>,
    WalError,
> {
    match result {
        Ok(entries) => Ok(records_of(entries@)),
        Err(defect) => Err(defect),
    }
}

impl WriteAheadLogEntry {
    /// A record of the given kind for `key` and `value`.
    pub fn new(entry_kind: EntryKind, key: Vec<u8>, value: Vec<u8>) -> (entry: Self)
        ensures
            entry@ == (Record { kind: entry_kind, key: key@, value: value@ }),
            entry.entry_kind == entry_kind,
            entry.key == key,
            entry.value == value,
    {
        Self { entry_kind, key, value }
    }

    /// Whether the record fits a frame.
    pub fn fits(&self) -> (fits: bool)
        ensures
            fits == self@.fits(),
    {
        let limit: usize = 0xffff_ffff - HEADER_LEN;
        self.key.len() <= limit && self.value.len() <= limit - self.key.len()
    }

    /// The record's frame.
    pub fn serialize(&self) -> (frame: Vec<u8>)
        requires
            self@.fits(),
        ensures
            frame@ == self@.frame(),
    {
        let entry_len: usize = HEADER_LEN + self.key.len() + self.value.len();
        let mut frame: Vec<u8> = Vec::with_capacity(entry_len);
        let len_field = u32_to_le_bytes(entry_len as u32);
        append_bytes(&mut frame, len_field.as_slice());
        frame.push(self.entry_kind.code());
        let key_field = u32_to_le_bytes(self.key.len() as u32);
        append_bytes(&mut frame, key_field.as_slice());
        let value_field = u32_to_le_bytes(self.value.len() as u32);
        append_bytes(&mut frame, value_field.as_slice());
        append_bytes(&mut frame, self.key.as_slice());
        append_bytes(&mut frame, self.value.as_slice());
        assert(frame@ == self@.frame());
        frame
    }

    /// Reads the record back from its frame.
    ///
    /// `serialized_data` must be exactly one frame: see [`parse_frame`] for
    /// the checks and their order.
    pub fn deserialize(serialized_data: &[u8]) -> (result: Result<Self, WalError>)
        ensures
            decoded(result) == parse_frame(serialized_data@),
    {
        if serialized_data.len() < HEADER_LEN {
            return Err(WalError::TooShort);
        }
        let entry_len: u32 = u32_from_le_bytes(slice_subrange(serialized_data, 0, 4));
        if serialized_data.len() as u64 != entry_len as u64 {
            return Err(WalError::LengthMismatch);
        }
        let entry_kind = match EntryKind::from_code(serialized_data[4]) {
            Some(kind) => kind,
            None => {
                return Err(WalError::InvalidKind);
            },
        };
        let key_len: u32 = u32_from_le_bytes(slice_subrange(serialized_data, 5, 9));
        let value_len: u32 = u32_from_le_bytes(slice_subrange(serialized_data, 9, 13));
        if serialized_data.len() as u64 != 13 + key_len as u64 + value_len as u64 {
            return Err(WalError::FieldMismatch);
        }
        let key_end: usize = HEADER_LEN + key_len as usize;
        let key = copy_range(serialized_data, HEADER_LEN, key_end);
        let value = copy_range(serialized_data, key_end, serialized_data.len());
        Ok(WriteAheadLogEntry::new(entry_kind, key, value))
    }
}

/// Reads every record of a log.
///
/// Replay is strict: it stops at the first malformed frame and reports its
/// defect; a trailing incomplete frame is such a defect.
pub fn replay(log: &[u8]) -> (result: Result<Vec<WriteAheadLogEntry>, WalError>)
    ensures
        replayed(result) == parse_log(log@),
{
    let mut entries: Vec<WriteAheadLogEntry> = Vec::new();
    let mut at: usize = 0;
    proof {
        assert(log@.subrange(0, log@.len() as int) == log@);
        let whole = parse_log(log@);
        if whole is Ok {
            assert(records_of(entries@) + whole->Ok_0 == whole->Ok_0);
        }
    }
    while at < log.len()
        invariant
            at <= log@.len(),
            parse_log(log@) == (match parse_log(log@.subrange(at as int, log@.len() as int)) {
                Err(defect) => Err::<Seq<Record>, WalError>(defect),
                Ok(rest) => Ok(records_of(entries@) + rest),
            }),
        decreases log@.len() - at,
    {
        let ghost rest = log@.subrange(at as int, log@.len() as int);
        let remaining: usize = log.len() - at;
        if remaining < HEADER_LEN {
            return Err(WalError::TooShort);
        }
        let entry_len: u32 = u32_from_le_bytes(slice_subrange(log, at, at + 4));
        assert(log@.subrange(at as int, at + 4) == rest.subrange(0, 4));
        if entry_len < 13 || entry_len as u64 > remaining as u64 {
            return Err(WalError::LengthMismatch);
        }
        let end: usize = at + entry_len as usize;
        assert(log@.subrange(at as int, end as int) == rest.subrange(0, entry_len as int));
        assert(log@.subrange(end as int, log@.len() as int) == rest.subrange(
            entry_len as int,
            rest.len() as int,
        ));
        match WriteAheadLogEntry::deserialize(slice_subrange(log, at, end)) {
            Err(defect) => {
                return Err(defect);
            },
            Ok(entry) => {
                proof {
                    let ghost tail = parse_log(log@.subrange(end as int, log@.len() as int));
                    if tail is Ok {
                        assert(records_of(entries@.push(entry)) + tail->Ok_0 == records_of(
                            entries@,
                        ) + (seq![entry@] + tail->Ok_0));
                    }
                }
                entries.push(entry);
                at = end;
            },
        }
    }
    assert(log@.subrange(at as int, log@.len() as int) == Seq::<u8>::empty());
    assert(records_of(entries@) + Seq::<Record>::empty() == records_of(entries@));
    Ok(entries)
}

/// The image of the write-ahead log: the frames appended since it was last
/// empty, one after the other.
pub struct WriteAheadLog {
    image: Vec<u8>,
}

impl View for WriteAheadLog {
    type V = Seq<u8>;

    closed spec fn view(&self) -> Seq<u8> {
        self.image@
    }
}

impl WriteAheadLog {
    /// An empty log.
    pub fn new() -> (log: Self)
        ensures
            log@ == Seq::<u8>::empty(),
    {
        WriteAheadLog { image: Vec::new() }
    }

    /// The log whose image is `image`, as read from the log file.
    pub fn from_bytes(image: Vec<u8>) -> (log: Self)
        ensures
            log@ == image@,
    {
        WriteAheadLog { image }
    }

    /// The log's image.
    pub fn as_bytes(&self) -> (image: &[u8])
        ensures
            image@ == self@,
    {
        self.image.as_slice()
    }

    /// The length of the log's image: the position of the next write.
    pub fn len(&self) -> (len: usize)
        ensures
            len == self@.len(),
    {
        self.image.len()
    }

    /// Appends the frame of the record `(entry_kind, key, value)` and
    /// returns that frame.
    pub fn append(&mut self, entry_kind: EntryKind, key: Vec<u8>, value: Vec<u8>) -> (frame: Vec<u8>)
        requires
            (Record { kind: entry_kind, key: key@, value: value@ }).fits(),
        ensures
            frame@ == (Record { kind: entry_kind, key: key@, value: value@ }).frame(),
            final(self)@ == old(self)@ + frame@,
    {
        let entry = WriteAheadLogEntry::new(entry_kind, key, value);
        let frame = entry.serialize();
        append_bytes(&mut self.image, frame.as_slice());
        frame
    }

    /// Replays the log: its records in the order in which they were
    /// appended, or the defect of its first malformed frame.
    pub fn recover(&self) -> (result: Result<Vec<WriteAheadLogEntry>, WalError>)
        ensures
            replayed(result) == parse_log(self@),
    {
        replay(self.image.as_slice())
    }

    /// Truncates the log to length zero.
    pub fn clear(&mut self)
        ensures
            final(self)@ == Seq::<u8>::empty(),
    {
        self.image.clear();
    }
}

/// A frame's length and the places of its parts.
pub proof fn lemma_frame_layout(record: Record)
    requires
        record.fits(),
    ensures
        record.frame().len() == record.frame_len(),
        field(record.frame(), 0) == record.frame_len(),
        record.frame()[4] == record.kind.spec_code(),
        field(record.frame(), 5) == record.key.len(),
        field(record.frame(), 9) == record.value.len(),
        record.frame().subrange(13, 13 + record.key.len() as int) == record.key,
        record.frame().subrange(13 + record.key.len() as int, record.frame().len() as int)
            == record.value,
{
    lemma_auto_spec_u32_to_from_le_bytes();
    let frame = record.frame();
    let total = spec_u32_to_le_bytes(record.frame_len() as u32);
    let keys = spec_u32_to_le_bytes(record.key.len() as u32);
    let values = spec_u32_to_le_bytes(record.value.len() as u32);
    assert(frame.subrange(0, 4) == total);
    assert(frame.subrange(5, 9) == keys);
    assert(frame.subrange(9, 13) == values);
    assert(frame.subrange(13, 13 + record.key.len() as int) == record.key);
    assert(frame.subrange(13 + record.key.len() as int, frame.len() as int) == record.value);
}

/// Reading back a frame gives the record that was framed: for every record
/// that fits a frame, `parse_frame(record.frame())` is that record.
pub proof fn lemma_frame_round_trip(record: Record)
    requires
        record.fits(),
    ensures
        parse_frame(record.frame()) == Ok::<Record, WalError>(record),
{
    lemma_frame_layout(record);
    let parsed = parse_frame(record.frame());
    assert(parsed is Ok);
    assert(parsed->Ok_0.key == record.key);
    assert(parsed->Ok_0.value == record.value);
}

/// Only a record's own frame reads back as that record: where `bytes`
/// parses as `record`, `bytes` is `record.frame()` and `record` fits.
pub proof fn lemma_parsed_frame_is_frame(bytes: Seq<u8>, record: Record)
    requires
        parse_frame(bytes) == Ok::<Record, WalError>(record),
    ensures
        record.fits(),
        record.frame() == bytes,
{
    lemma_auto_spec_u32_to_from_le_bytes();
    let key_len = field(bytes, 5);
    assert(record.key.len() == key_len);
    assert(record.value.len() == field(bytes, 9));
    assert(spec_u32_to_le_bytes(record.frame_len() as u32) == bytes.subrange(0, 4));
    assert(spec_u32_to_le_bytes(record.key.len() as u32) == bytes.subrange(5, 9));
    assert(spec_u32_to_le_bytes(record.value.len() as u32) == bytes.subrange(9, 13));
    assert(record.frame() == bytes);
}

/// A log that starts with a record's frame reads as that record followed by
/// what the rest of the log reads as.
pub proof fn lemma_parse_log_step(record: Record, rest: Seq<u8>)
    requires
        record.fits(),
    ensures
        parse_log(record.frame() + rest) == (match parse_log(rest) {
            Err(defect) => Err::<Seq<Record>, WalError>(defect),
            Ok(records) => Ok(seq![record] + records),
        }),
{
    lemma_frame_layout(record);
    lemma_frame_round_trip(record);
    let frame = record.frame();
    let bytes = frame + rest;
    assert(bytes.subrange(0, 4) == frame.subrange(0, 4));
    assert(bytes.subrange(0, frame.len() as int) == frame);
    assert(bytes.subrange(frame.len() as int, bytes.len() as int) == rest);
}

/// Replaying the log of `records` gives `records` back.
pub proof fn lemma_log_round_trip(records: Seq<Record>)
    requires
        all_fit(records),
    ensures
        parse_log(log_bytes(records)) == Ok::<Seq<Record>, WalError>(records),
    decreases records.len(),
{
    if records.len() > 0 {
        let tail = records.subrange(1, records.len() as int);
        assert(all_fit(tail)) by {
            assert forall|i: int| 0 <= i < tail.len() implies (#[trigger] tail[i]).fits() by {
                assert(tail[i] == records[i + 1]);
            }
        }
        lemma_log_round_trip(tail);
        lemma_parse_log_step(records[0], log_bytes(tail));
        assert(seq![records[0]] + tail == records);
    } else {
        assert(records == Seq::<Record>::empty());
    }
}

/// A log that replays without defect is the log of the records it replays
/// as, and each of them fits a frame.
pub proof fn lemma_replayed_log_is_log(bytes: Seq<u8>, records: Seq<Record>)
    requires
        parse_log(bytes) == Ok::<Seq<Record>, WalError>(records),
    ensures
        all_fit(records),
        log_bytes(records) == bytes,
    decreases bytes.len(),
{
    if bytes.len() > 0 {
        let n = field(bytes, 0);
        let head = bytes.subrange(0, n);
        let rest = bytes.subrange(n, bytes.len() as int);
        let record = parse_frame(head)->Ok_0;
        let tail = parse_log(rest)->Ok_0;
        lemma_parsed_frame_is_frame(head, record);
        lemma_replayed_log_is_log(rest, tail);
        assert(records == seq![record] + tail);
        assert(records.subrange(1, records.len() as int) == tail);
        assert(head + rest == bytes);
    } else {
        assert(bytes == Seq::<u8>::empty());
    }
}

/// A log that was cut inside a record does not replay: where the frames of
/// records are followed by a part of a frame, the part is the defect. It is
/// too short where less than a header is left of it, and else its length is
/// not the one that it declares.
pub proof fn lemma_cut_log_is_refused(records: Seq<Record>, record: Record, cut: int)
    requires
        all_fit(records),
        record.fits(),
        0 < cut < record.frame().len(),
    ensures
        parse_log(log_bytes(records) + record.frame().subrange(0, cut)) == Err::<
            Seq<Record>,
            WalError,
        >(
            if cut < 13 {
                WalError::TooShort
            } else {
                WalError::LengthMismatch
            },
        ),
    decreases records.len(),
{
    let part = record.frame().subrange(0, cut);
    if records.len() == 0 {
        assert(log_bytes(records) + part == part);
        lemma_frame_layout(record);
        if cut >= 13 {
            assert(part.subrange(0, 4) == record.frame().subrange(0, 4));
        }
    } else {
        let tail = records.subrange(1, records.len() as int);
        assert(all_fit(tail)) by {
            assert forall|i: int| 0 <= i < tail.len() implies (#[trigger] tail[i]).fits() by {
                assert(tail[i] == records[i + 1]);
            }
        }
        lemma_cut_log_is_refused(tail, record, cut);
        lemma_parse_log_step(records[0], log_bytes(tail) + part);
        assert(log_bytes(records) + part == records[0].frame() + (log_bytes(tail) + part));
    }
}

/// Appending a record's frame to a log that replays without defect appends
/// the record to what the log replays as.
pub proof fn lemma_parse_log_append(bytes: Seq<u8>, record: Record)
    requires
        record.fits(),
    ensures
        parse_log(bytes) matches Ok(records) ==> parse_log(bytes + record.frame()) == Ok::<
            Seq<Record>,
            WalError,
        >(records.push(record)),
{
    let records = parse_log(bytes);
    if records is Ok {
        lemma_replayed_log_is_log(bytes, records->Ok_0);
        lemma_log_push(records->Ok_0, record);
        assert(all_fit(records->Ok_0.push(record)));
        lemma_log_round_trip(records->Ok_0.push(record));
    }
}

/// The log of `records` followed by `record` is the log of `records`
/// followed by the frame of `record`.
pub proof fn lemma_log_push(records: Seq<Record>, record: Record)
    ensures
        log_bytes(records.push(record)) == log_bytes(records) + record.frame(),
    decreases records.len(),
{
    let pushed = records.push(record);
    if records.len() == 0 {
        assert(pushed.subrange(1, pushed.len() as int) == Seq::<Record>::empty());
        assert(log_bytes(pushed.subrange(1, pushed.len() as int)) == Seq::<u8>::empty());
        assert(log_bytes(pushed) == record.frame() + Seq::<u8>::empty());
    } else {
        let tail = records.subrange(1, records.len() as int);
        lemma_log_push(tail, record);
        assert(pushed.subrange(1, pushed.len() as int) == tail.push(record));
        assert(pushed[0] == records[0]);
        assert(records[0].frame() + (log_bytes(tail) + record.frame()) == (records[0].frame()
            + log_bytes(tail)) + record.frame());
    }
}

} // verus!
