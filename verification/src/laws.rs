//! What holds of the engine across calls: reads after writes, removals and
//! clearing, the agreement of the log with the write buffer, and the
//! durability of writes across a restart.
//!
//! The laws are stated over the engine's state, [`EngineView`], and its
//! transitions, which the contracts of the engine's operations speak of.

use crate::api::{
    applied, first_table, fits_blocks, holder, insert_record, remove_record, replayed_buffer,
    stamp_for, tables_get, without_key, EngineView, TableView,
};
use crate::memtable::{
    entries_of, lemma_pair_map_at, lemma_pair_map_insert, lemma_pair_map_remove,
    lemma_pair_map_update, pair_key, pair_map, sorted_pairs, MemView,
};
use crate::order::{absent, holds, keys_by, place_of};
use crate::sst::bloom_filter::FilterView;
use crate::sst::sst_block::{entry_size, BLOCK_SIZE};
use crate::sst::sstable::{
    blocks_wf, distinct_keys, filled, lemma_blocks_without, lemma_filled,
};
use crate::write_ahead_log::{lemma_parse_log_append, parse_log, Record};
use vstd::prelude::*;

verus! {

/// The filter reports every key of the buffer as possibly present.
pub open spec fn covered(buffer: MemView) -> bool {
    forall|key: Seq<u8>| #[trigger] buffer.map.dom().contains(key) ==> buffer.filter.contains(key)
}

/// The map is the map of its entries in ascending key order.
pub open spec fn listed(map: Map<Seq<u8>, Seq<u8>>) -> bool {
    sorted_pairs(entries_of(map)) && pair_map(entries_of(map)) == map
}

/// The buffer's filter has bits, no more than can be counted, and reports
/// every key of the buffer as possibly present, and the buffer's entries can
/// be listed in ascending key order.
pub open spec fn sound_buffer(buffer: MemView) -> bool {
    &&& 0 < buffer.filter.bits.len() <= usize::MAX
    &&& covered(buffer)
    &&& listed(buffer.map)
}

/// Every table's blocks are in order, and no table holds a key twice.
pub open spec fn sound_tables(tables: Seq<TableView>) -> bool {
    forall|i: int|
        0 <= i < tables.len() ==> blocks_wf((#[trigger] tables[i]).blocks) && distinct_keys(
            tables[i].blocks,
        )
}

/// The engine's buffer and tables are in order, and its log is a row of
/// well-formed frames. The state of every engine that is in order is sound.
pub open spec fn sound(engine: EngineView) -> bool {
    &&& sound_buffer(engine.memtable)
    &&& sound_tables(engine.tables)
    &&& parse_log(engine.wal) is Ok
}

/// The state of an engine that is in order is sound.
pub proof fn lemma_wf_is_sound(engine: &crate::api::StorageEngine)
    requires
        engine.wf(),
    ensures
        sound(engine@),
{
    crate::memtable::lemma_wf_is_covered(&engine.memtable);
    crate::memtable::lemma_wf_is_listed(&engine.memtable);
    assert forall|i: int| 0 <= i < engine@.tables.len() implies blocks_wf(
        (#[trigger] engine@.tables[i]).blocks,
    ) && distinct_keys(engine@.tables[i].blocks) by {
        assert(engine.sstables@[i].wf());
    }
}

/// A key that was inserted into a filter with bits may be contained.
pub proof fn lemma_inserted_is_contained(filter: FilterView, key: Seq<u8>)
    requires
        filter.bits.len() > 0,
    ensures
        filter.insert(key).contains(key),
        filter.within(filter.insert(key)),
{
    crate::sst::bloom_filter::lemma_no_false_negative(filter, key, Seq::empty());
}

/// What a filter with bits may contain, it may contain after an insertion.
pub proof fn lemma_insert_keeps_contained(filter: FilterView, inserted: Seq<u8>, key: Seq<u8>)
    requires
        filter.bits.len() > 0,
        filter.contains(key),
    ensures
        filter.insert(inserted).contains(key),
{
    lemma_inserted_is_contained(filter, inserted);
    crate::sst::bloom_filter::lemma_within_contains(filter, filter.insert(inserted), key);
}

/// The empty map can be listed: it has no entries.
pub proof fn lemma_listed_empty()
    ensures
        listed(Map::<Seq<u8>, Seq<u8>>::empty()),
        entries_of(Map::<Seq<u8>, Seq<u8>>::empty()) == Seq::<(Seq<u8>, Seq<u8>)>::empty(),
{
    let none = Seq::<(Seq<u8>, Seq<u8>)>::empty();
    assert(pair_map(none) =~= Map::<Seq<u8>, Seq<u8>>::empty());
    crate::memtable::lemma_entries_of(none);
}

/// A map that can be listed can be listed after a value was put under a
/// key, whether the map held the key or not.
pub proof fn lemma_listed_insert(map: Map<Seq<u8>, Seq<u8>>, key: Seq<u8>, value: Seq<u8>)
    requires
        listed(map),
    ensures
        listed(map.insert(key, value)),
{
    let pairs = entries_of(map);
    let keys = keys_by(pairs, pair_key());
    if map.dom().contains(key) {
        let at = place_of(pairs, pair_key(), key);
        assert(holds(pairs, pair_key(), key));
        assert(pairs[at].0 == key);
        lemma_pair_map_update(pairs, at, (key, value));
        crate::memtable::lemma_entries_of(pairs.update(at, (key, value)));
    } else {
        assert(absent(keys, key)) by {
            assert forall|i: int| 0 <= i < keys.len() implies #[trigger] keys[i] != key by {
                lemma_pair_map_at(pairs, i);
            }
        }
        let at = crate::order::lemma_split_exists(keys, key);
        lemma_pair_map_insert(pairs, at, (key, value));
        crate::memtable::lemma_entries_of(pairs.insert(at, (key, value)));
    }
}

/// A map that can be listed can be listed with a key less.
pub proof fn lemma_listed_remove(map: Map<Seq<u8>, Seq<u8>>, key: Seq<u8>)
    requires
        listed(map),
    ensures
        listed(map.remove(key)),
{
    let pairs = entries_of(map);
    if map.dom().contains(key) {
        let at = place_of(pairs, pair_key(), key);
        assert(holds(pairs, pair_key(), key));
        lemma_pair_map_remove(pairs, at);
        assert(pairs[at].0 == key);
        crate::memtable::lemma_entries_of(pairs.remove(at));
    } else {
        assert(map.remove(key) =~= map);
    }
}

/// What a buffer returns after a value was put under a key: that value for
/// the key, and for every other key what it returned before.
pub proof fn lemma_put_reads(buffer: MemView, key: Seq<u8>, value: Seq<u8>, other: Seq<u8>)
    requires
        buffer.filter.bits.len() > 0,
        covered(buffer),
    ensures
        buffer.put(key, value).get(key) == Some(value),
        other != key ==> buffer.put(key, value).get(other) == buffer.get(other),
{
    lemma_inserted_is_contained(buffer.filter, key);
    if other != key {
        if buffer.get(other) is Some {
            lemma_insert_keeps_contained(buffer.filter, key, other);
        } else {
            assert(!buffer.map.dom().contains(other));
        }
    }
}

/// Putting a value under a key leaves a sound buffer sound.
pub proof fn lemma_put_keeps_sound_buffer(buffer: MemView, key: Seq<u8>, value: Seq<u8>)
    requires
        sound_buffer(buffer),
    ensures
        sound_buffer(buffer.put(key, value)),
{
    let after = buffer.put(key, value);
    lemma_inserted_is_contained(buffer.filter, key);
    assert forall|other: Seq<u8>| #[trigger] after.map.dom().contains(other) implies after.filter.contains(
        other,
    ) by {
        if other != key {
            assert(buffer.map.dom().contains(other));
            lemma_insert_keeps_contained(buffer.filter, key, other);
        }
    }
    lemma_listed_insert(buffer.map, key, value);
}

/// Removing a key from a sound buffer leaves the buffer sound, takes the
/// key out of its map, and leaves what it returns for every other key.
pub proof fn lemma_unset_keeps_sound(buffer: MemView, key: Seq<u8>, other: Seq<u8>)
    requires
        sound_buffer(buffer),
    ensures
        sound_buffer(buffer.remove(key)),
        buffer.remove(key).map == buffer.map.remove(key),
        buffer.remove(key).get(key) is None,
        other != key ==> buffer.remove(key).get(other) == buffer.get(other),
{
    let after = buffer.remove(key);
    if buffer.get(key) is None {
        assert(!buffer.map.dom().contains(key));
        assert(buffer.map.remove(key) =~= buffer.map);
    }
    assert forall|held: Seq<u8>| #[trigger] after.map.dom().contains(held) implies after.filter.contains(
        held,
    ) by {
        assert(buffer.map.dom().contains(held));
    }
    lemma_listed_remove(buffer.map, key);
}

/// A fresh buffer with bits is sound.
pub proof fn lemma_fresh_is_sound(capacity: nat, num_bits: usize, num_hashes: usize)
    requires
        num_bits > 0,
    ensures
        sound_buffer(MemView::fresh(capacity, num_bits, num_hashes)),
{
    let fresh = MemView::fresh(capacity, num_bits, num_hashes);
    lemma_listed_empty();
    assert forall|key: Seq<u8>| #[trigger] fresh.map.dom().contains(key) implies fresh.filter.contains(
        key,
    ) by {}
}

/// A replay into a sound buffer gives a sound buffer with the capacity and
/// the filter dimensions of the first.
pub proof fn lemma_replay_is_sound(start: MemView, records: Seq<Record>)
    requires
        sound_buffer(start),
    ensures
        sound_buffer(replayed_buffer(start, records)),
        replayed_buffer(start, records).capacity == start.capacity,
        replayed_buffer(start, records).filter.bits.len() == start.filter.bits.len(),
        replayed_buffer(start, records).filter.num_hashes == start.filter.num_hashes,
    decreases records.len(),
{
    if records.len() > 0 {
        lemma_replay_is_sound(start, records.drop_last());
        let buffer = replayed_buffer(start, records.drop_last());
        match records.last().kind {
            crate::write_ahead_log::EntryKind::Insert => {
                lemma_put_keeps_sound_buffer(buffer, records.last().key, records.last().value);
            },
            crate::write_ahead_log::EntryKind::Remove => {
                lemma_unset_keeps_sound(buffer, records.last().key, records.last().key);
            },
        }
    }
}

/// A replay of records and one more is the replay of the records with the
/// last record applied to what it gives.
pub proof fn lemma_replay_push(start: MemView, records: Seq<Record>, record: Record)
    ensures
        replayed_buffer(start, records.push(record)) == applied(
            replayed_buffer(start, records),
            record,
        ),
{
    assert(records.push(record).drop_last() == records);
}

/// The last record of a key decides: a replay that ends with an insert of a
/// key holds the inserted value under it, and one that ends with a remove of
/// a key holds nothing under it.
pub proof fn lemma_last_record_decides(start: MemView, records: Seq<Record>, record: Record)
    requires
        sound_buffer(start),
    ensures
        record.kind == crate::write_ahead_log::EntryKind::Insert ==> replayed_buffer(
            start,
            records.push(record),
        ).get(record.key) == Some(record.value),
        record.kind == crate::write_ahead_log::EntryKind::Remove ==> replayed_buffer(
            start,
            records.push(record),
        ).get(record.key) is None,
{
    lemma_replay_push(start, records, record);
    lemma_replay_is_sound(start, records);
    let buffer = replayed_buffer(start, records);
    lemma_put_reads(buffer, record.key, record.value, record.key);
    lemma_unset_keeps_sound(buffer, record.key, record.key);
}

/// The first table from `from` on that holds the key holds it, and no table
/// between `from` and it does.
pub proof fn lemma_first_table(tables: Seq<TableView>, key: Seq<u8>, from: int)
    requires
        0 <= from <= tables.len(),
    ensures
        from <= first_table(tables, key, from) <= tables.len(),
        first_table(tables, key, from) < tables.len() ==> holder(
            tables,
            key,
            first_table(tables, key, from),
        ),
        forall|i: int| from <= i < first_table(tables, key, from) ==> !holder(tables, key, i),
    decreases tables.len() - from,
{
    if from < tables.len() && !tables[from].contents().dom().contains(key) {
        lemma_first_table(tables, key, from + 1);
    }
}

/// Behind a table that was put in front, the first table that holds a key
/// is the one that was the first before, one place further on.
pub proof fn lemma_first_table_shift(
    table: TableView,
    tables: Seq<TableView>,
    key: Seq<u8>,
    from: int,
)
    requires
        0 <= from <= tables.len(),
    ensures
        first_table(seq![table] + tables, key, from + 1) == first_table(tables, key, from) + 1,
    decreases tables.len() - from,
{
    let all = seq![table] + tables;
    if from < tables.len() {
        assert(all[from + 1] == tables[from]);
        if !tables[from].contents().dom().contains(key) {
            lemma_first_table_shift(table, tables, key, from + 1);
        }
    }
}

/// Tables that hold a key at the same places and with the same values are
/// searched with the same result.
pub proof fn lemma_same_holders(first: Seq<TableView>, second: Seq<TableView>, key: Seq<u8>)
    requires
        first.len() == second.len(),
        forall|i: int| #[trigger] holder(first, key, i) <==> holder(second, key, i),
        forall|i: int| #[trigger]
            holder(first, key, i) ==> first[i].contents()[key] == second[i].contents()[key],
    ensures
        tables_get(first, key) == tables_get(second, key),
{
    lemma_first_table(first, key, 0);
    lemma_first_table(second, key, 0);
    let one = first_table(first, key, 0);
    let two = first_table(second, key, 0);
    if one < first.len() {
        assert(holder(first, key, one));
        assert(holder(second, key, one));
    }
    if two < second.len() {
        assert(holder(second, key, two));
        assert(holder(first, key, two));
    }
}

/// What removing a key from the first table that holds it does: the tables
/// stay in order, that table holds the key no more, and every table holds
/// every other key as before.
pub proof fn lemma_without_key(tables: Seq<TableView>, key: Seq<u8>)
    requires
        sound_tables(tables),
    ensures
        sound_tables(without_key(tables, key)),
        without_key(tables, key).len() == tables.len(),
        forall|i: int| #[trigger]
            holder(without_key(tables, key), key, i) <==> holder(tables, key, i) && i
                != first_table(tables, key, 0),
        forall|other: Seq<u8>, i: int|
            other != key ==> (#[trigger] holder(without_key(tables, key), other, i) <==> holder(
                tables,
                other,
                i,
            )),
        forall|other: Seq<u8>, i: int|
            other != key && #[trigger] holder(without_key(tables, key), other, i) ==> without_key(
                tables,
                key,
            )[i].contents()[other] == tables[i].contents()[other],
{
    let after = without_key(tables, key);
    let at = first_table(tables, key, 0);
    lemma_first_table(tables, key, 0);
    if at < tables.len() {
        assert(blocks_wf(tables[at].blocks));
        lemma_blocks_without(tables[at].blocks, key);
        assert(after[at].contents() == tables[at].contents().remove(key));
        assert forall|i: int| 0 <= i < after.len() implies blocks_wf((#[trigger] after[i]).blocks)
            && distinct_keys(after[i].blocks) by {
            if i != at {
                assert(after[i] == tables[i]);
            }
        }
        assert forall|i: int| #[trigger]
            holder(after, key, i) <==> holder(tables, key, i) && i != at by {
            if 0 <= i < tables.len() && i != at {
                assert(after[i] == tables[i]);
            }
        }
        assert forall|other: Seq<u8>, i: int| other != key implies (#[trigger] holder(
            after,
            other,
            i,
        ) <==> holder(tables, other, i)) by {
            if 0 <= i < tables.len() && i != at {
                assert(after[i] == tables[i]);
            }
        }
        assert forall|other: Seq<u8>, i: int| other != key && #[trigger] holder(after, other, i)
            implies after[i].contents()[other] == tables[i].contents()[other] by {
            if i != at {
                assert(after[i] == tables[i]);
            }
        }
    } else {
        assert forall|i: int| #[trigger]
            holder(after, key, i) <==> holder(tables, key, i) && i != at by {}
    }
}

/// A read that follows a write returns what was written: where
/// `put(key, value)` returns `Ok`, `get(key)` returns `value` afterwards. The
/// write returns `Ok` unless the buffer was due to be flushed and holds an
/// entry that fits no block.
pub proof fn lemma_get_after_put(engine: EngineView, key: Seq<u8>, value: Seq<u8>, now: i64)
    requires
        0 < engine.memtable.filter.bits.len() <= usize::MAX,
    ensures
        engine.put(key, value, now).1 is Ok <==> !(engine.is_full() && !fits_blocks(
            engine.memtable.map,
        )),
        engine.put(key, value, now).1 is Ok ==> engine.put(key, value, now).0.get(key) == Some(
            value,
        ),
{
    let ready = if engine.is_full() {
        engine.fresh_buffer()
    } else {
        engine.memtable
    };
    lemma_inserted_is_contained(ready.filter, key);
}

/// A read that follows a removal returns nothing, for a key that is held in
/// one place at most: `remove(key)` takes the key from the one place that
/// holds it. A key that the buffer and a table hold, or two tables, is read
/// from the next place afterwards.
pub proof fn lemma_get_after_remove(engine: EngineView, key: Seq<u8>)
    requires
        sound(engine),
        engine.held_once(key),
    ensures
        engine.remove(key).get(key) is None,
        !engine.remove(key).held(key),
{
    let after = engine.remove(key);
    lemma_unset_keeps_sound(engine.memtable, key, key);
    lemma_without_key(engine.tables, key);
    lemma_first_table(engine.tables, key, 0);
    lemma_first_table(after.tables, key, 0);
    let at = first_table(engine.tables, key, 0);
    let found = first_table(after.tables, key, 0);
    if found < after.tables.len() {
        assert(holder(after.tables, key, found));
        assert(holder(engine.tables, key, found));
        if at < engine.tables.len() {
            assert(holder(engine.tables, key, at));
        }
    }
}

/// A removal touches a table only where the buffer does not hold the key,
/// and then only the first table that holds it.
pub proof fn lemma_remove_touches_one_place(engine: EngineView, key: Seq<u8>, at: int)
    requires
        0 <= at < engine.tables.len(),
    ensures
        engine.remove(key).tables.len() == engine.tables.len(),
        engine.memtable.get(key) is Some ==> engine.remove(key).tables == engine.tables,
        at != first_table(engine.tables, key, 0) ==> engine.remove(key).tables[at]
            == engine.tables[at],
        engine.remove(key).tables[at].created_at == engine.tables[at].created_at,
{
    lemma_first_table(engine.tables, key, 0);
}

/// A removal leaves the reads of the other keys as they were.
pub proof fn lemma_remove_keeps_other_reads(engine: EngineView, key: Seq<u8>, other: Seq<u8>)
    requires
        sound(engine),
        other != key,
    ensures
        engine.remove(key).get(other) == engine.get(other),
{
    lemma_unset_keeps_sound(engine.memtable, key, other);
    lemma_without_key(engine.tables, key);
    lemma_same_holders(without_key(engine.tables, key), engine.tables, other);
}

/// A removal leaves a sound engine sound.
pub proof fn lemma_remove_keeps_sound(engine: EngineView, key: Seq<u8>)
    requires
        sound(engine),
        remove_record(key).fits(),
    ensures
        sound(engine.remove(key)),
{
    lemma_unset_keeps_sound(engine.memtable, key, key);
    lemma_without_key(engine.tables, key);
    lemma_parse_log_append(engine.wal, remove_record(key));
}

/// A read that follows an update returns the new value: where
/// `update(key, value)` returns `Ok`, `get(key)` returns `value` afterwards,
/// whether the key was held before or not.
pub proof fn lemma_get_after_update(engine: EngineView, key: Seq<u8>, value: Seq<u8>, now: i64)
    requires
        sound(engine),
    ensures
        engine.remove(key).put(key, value, now).1 is Ok ==> engine.remove(key).put(
            key,
            value,
            now,
        ).0.get(key) == Some(value),
{
    lemma_get_after_put(engine.remove(key), key, value, now);
}

/// A read that follows clearing returns nothing, whatever the key is.
pub proof fn lemma_get_after_clear(engine: EngineView, key: Seq<u8>)
    ensures
        engine.clear().get(key) is None,
{
    assert(!engine.clear().memtable.map.dom().contains(key));
}

/// The table into which a buffer is flushed: its blocks are in order, it
/// holds no key twice, and a lookup finds in it what the buffer held.
pub proof fn lemma_flushed_table(map: Map<Seq<u8>, Seq<u8>>)
    requires
        listed(map),
        fits_blocks(map),
    ensures
        blocks_wf(filled(entries_of(map))),
        distinct_keys(filled(entries_of(map))),
        crate::sst::sstable::contents(filled(entries_of(map))) == map,
{
    let pairs = entries_of(map);
    assert forall|i: int| 0 <= i < pairs.len() implies entry_size(
        (#[trigger] pairs[i]).0,
        pairs[i].1,
    ) <= BLOCK_SIZE by {
        lemma_pair_map_at(pairs, i);
        assert(map.dom().contains(pairs[i].0));
    }
    lemma_filled(pairs);
}

/// A flush leaves a sound engine sound, whether the buffer is cleared or
/// replaced by a fresh one.
pub proof fn lemma_flush_keeps_sound(engine: EngineView, now: i64)
    requires
        sound(engine),
        fits_blocks(engine.memtable.map),
    ensures
        sound(engine.flushed(now)),
        sound(engine.renewed(now)),
{
    let table = TableView {
        blocks: filled(entries_of(engine.memtable.map)),
        created_at: stamp_for(engine.tables, now),
    };
    let tables = seq![table] + engine.tables;
    lemma_flushed_table(engine.memtable.map);
    lemma_listed_empty();
    assert(engine.flushed(now).tables == tables);
    assert(engine.renewed(now).tables == tables);
    lemma_fresh_is_sound(
        engine.memtable.capacity,
        engine.memtable.filter.bits.len() as usize,
        engine.memtable.filter.num_hashes,
    );
    assert(sound_buffer(engine.flushed(now).memtable)) by {
        assert forall|key: Seq<u8>| #[trigger]
            engine.flushed(now).memtable.map.dom().contains(key) implies engine.flushed(
            now,
        ).memtable.filter.contains(key) by {}
    }
    assert forall|i: int| 0 <= i < tables.len() implies blocks_wf((#[trigger] tables[i]).blocks)
        && distinct_keys(tables[i].blocks) by {
        if i > 0 {
            assert(tables[i] == engine.tables[i - 1]);
        }
    }
}

/// A flush keeps the reads, whether the buffer is cleared or replaced by a
/// fresh one: what the engine returned from its buffer it returns from the
/// new table, which is searched first.
pub proof fn lemma_flush_keeps_reads(engine: EngineView, now: i64, key: Seq<u8>)
    requires
        sound(engine),
        fits_blocks(engine.memtable.map),
    ensures
        engine.flushed(now).get(key) == engine.get(key),
        engine.renewed(now).get(key) == engine.get(key),
{
    let table = TableView {
        blocks: filled(entries_of(engine.memtable.map)),
        created_at: stamp_for(engine.tables, now),
    };
    let tables = seq![table] + engine.tables;
    lemma_flushed_table(engine.memtable.map);
    assert(engine.flushed(now).tables == tables);
    assert(engine.renewed(now).tables == tables);
    assert(engine.flushed(now).memtable.get(key) is None);
    assert(engine.renewed(now).memtable.get(key) is None);
    assert(tables[0] == table);
    if engine.memtable.map.dom().contains(key) {
        assert(engine.memtable.filter.contains(key));
        assert(first_table(tables, key, 0) == 0);
    } else {
        assert(engine.memtable.get(key) is None);
        lemma_first_table_shift(table, engine.tables, key, 0);
        lemma_first_table(engine.tables, key, 0);
        let at = first_table(engine.tables, key, 0);
        assert(first_table(tables, key, 0) == at + 1);
        if at < engine.tables.len() {
            assert(tables[at + 1] == engine.tables[at]);
        }
    }
}

/// A write leaves a sound engine sound, whatever it returns.
pub proof fn lemma_put_keeps_sound(engine: EngineView, key: Seq<u8>, value: Seq<u8>, now: i64)
    requires
        sound(engine),
        insert_record(key, value).fits(),
    ensures
        sound(engine.put(key, value, now).0),
{
    let logged = EngineView { wal: engine.wal + insert_record(key, value).frame(), ..engine };
    lemma_parse_log_append(engine.wal, insert_record(key, value));
    if !engine.is_full() || fits_blocks(engine.memtable.map) {
        let ready = if engine.is_full() {
            logged.renewed(now)
        } else {
            logged
        };
        if engine.is_full() {
            lemma_flush_keeps_sound(logged, now);
        }
        lemma_put_keeps_sound_buffer(ready.memtable, key, value);
    }
}

/// A write leaves the reads of the other keys as they were.
pub proof fn lemma_put_keeps_other_reads(
    engine: EngineView,
    key: Seq<u8>,
    value: Seq<u8>,
    now: i64,
    other: Seq<u8>,
)
    requires
        sound(engine),
        insert_record(key, value).fits(),
        other != key,
    ensures
        engine.put(key, value, now).0.get(other) == engine.get(other),
{
    let logged = EngineView { wal: engine.wal + insert_record(key, value).frame(), ..engine };
    lemma_parse_log_append(engine.wal, insert_record(key, value));
    assert(logged.get(other) == engine.get(other));
    if !engine.is_full() || fits_blocks(engine.memtable.map) {
        let ready = if engine.is_full() {
            logged.renewed(now)
        } else {
            logged
        };
        if engine.is_full() {
            lemma_flush_keeps_sound(logged, now);
            lemma_flush_keeps_reads(logged, now, other);
        }
        lemma_put_reads(ready.memtable, key, value, other);
    }
}

/// The engine as it is after a restart: the log is replayed into a fresh
/// buffer, and no table is loaded. There is no restart where the log is
/// malformed.
pub open spec fn restarted(engine: EngineView) -> Option<EngineView> {
    match parse_log(engine.wal) {
        Err(_) => None,
        Ok(records) => Some(
            EngineView {
                memtable: replayed_buffer(engine.fresh_buffer(), records),
                wal: engine.wal,
                tables: Seq::empty(),
            },
        ),
    }
}

/// The log agrees with the buffer: replayed into a fresh buffer, it gives
/// the engine's buffer.
pub open spec fn log_agrees(engine: EngineView) -> bool {
    match restarted(engine) {
        Some(again) => again.memtable == engine.memtable,
        None => false,
    }
}

/// The buffer holds a part of what the log replays to: every entry of the
/// buffer is an entry of the replayed buffer.
pub open spec fn buffer_within_log(engine: EngineView) -> bool {
    match restarted(engine) {
        Some(again) => forall|key: Seq<u8>| #[trigger]
            engine.memtable.map.dom().contains(key) ==> again.memtable.map.dom().contains(key)
                && again.memtable.map[key] == engine.memtable.map[key],
        None => false,
    }
}

/// The engine's writes are durable: every value that the engine returns is
/// returned by the engine that a restart from its log gives.
pub open spec fn durable(engine: EngineView) -> bool {
    match restarted(engine) {
        Some(again) => forall|key: Seq<u8>|
            (#[trigger] engine.get(key)) is Some ==> again.get(key) == engine.get(key),
        None => false,
    }
}

/// The same capacity and filter dimensions.
pub open spec fn same_dimensions(first: MemView, second: MemView) -> bool {
    &&& first.capacity == second.capacity
    &&& first.filter.bits.len() == second.filter.bits.len()
    &&& first.filter.num_hashes == second.filter.num_hashes
}

/// A sound engine can be restarted, and the restarted engine is sound, has
/// no tables, and returns what its buffer returns.
pub proof fn lemma_restart(engine: EngineView)
    requires
        sound(engine),
    ensures
        restarted(engine) is Some,
        sound(restarted(engine).unwrap()),
        same_dimensions(restarted(engine).unwrap().memtable, engine.memtable),
        forall|key: Seq<u8>| #[trigger]
            restarted(engine).unwrap().get(key) == restarted(engine).unwrap().memtable.get(key),
{
    let records = parse_log(engine.wal).unwrap();
    let again = restarted(engine).unwrap();
    lemma_fresh_is_sound(
        engine.memtable.capacity,
        engine.memtable.filter.bits.len() as usize,
        engine.memtable.filter.num_hashes,
    );
    lemma_replay_is_sound(engine.fresh_buffer(), records);
    assert forall|key: Seq<u8>| #[trigger] again.get(key) == again.memtable.get(key) by {
        lemma_first_table(again.tables, key, 0);
    }
}

/// What a record more in the log does to the restart: the restarted buffer
/// is the one of before with the record applied.
pub proof fn lemma_restart_step(engine: EngineView, after: EngineView, record: Record)
    requires
        sound(engine),
        record.fits(),
        same_dimensions(after.memtable, engine.memtable),
    ensures
        after.wal == engine.wal + record.frame() ==> restarted(after) is Some && restarted(
            after,
        ).unwrap().memtable == applied(restarted(engine).unwrap().memtable, record),
        after.wal == engine.wal ==> restarted(after) is Some && restarted(after).unwrap().memtable
            == restarted(engine).unwrap().memtable,
{
    let records = parse_log(engine.wal).unwrap();
    lemma_parse_log_append(engine.wal, record);
    lemma_replay_push(engine.fresh_buffer(), records, record);
    assert(after.fresh_buffer() == engine.fresh_buffer());
}

/// What a log that stays as it is does to the restart: nothing, where the
/// buffer keeps its capacity and its filter its dimensions.
pub proof fn lemma_restart_same_log(engine: EngineView, after: EngineView)
    requires
        sound(engine),
        same_dimensions(after.memtable, engine.memtable),
        after.wal == engine.wal,
    ensures
        restarted(after) is Some,
        restarted(after).unwrap().memtable == restarted(engine).unwrap().memtable,
{
    assert(after.fresh_buffer() == engine.fresh_buffer());
}

/// Whatever a write returns, its record is in the log and keeps the filter
/// dimensions and the capacity of the buffer.
pub proof fn lemma_put_logs(engine: EngineView, key: Seq<u8>, value: Seq<u8>, now: i64)
    requires
        0 < engine.memtable.filter.bits.len() <= usize::MAX,
    ensures
        engine.put(key, value, now).0.wal == engine.wal + insert_record(key, value).frame(),
        same_dimensions(engine.put(key, value, now).0.memtable, engine.memtable),
{
}

/// Durability of a write: after `put(key, value)`, an engine that is
/// restarted from the log returns `value` for `key`, whatever was written
/// and removed before.
pub proof fn lemma_put_survives_restart(
    engine: EngineView,
    key: Seq<u8>,
    value: Seq<u8>,
    now: i64,
)
    requires
        sound(engine),
        insert_record(key, value).fits(),
    ensures
        restarted(engine.put(key, value, now).0) is Some,
        restarted(engine.put(key, value, now).0).unwrap().get(key) == Some(value),
{
    let after = engine.put(key, value, now).0;
    lemma_put_logs(engine, key, value, now);
    lemma_put_keeps_sound(engine, key, value, now);
    lemma_restart(engine);
    lemma_restart(after);
    lemma_restart_step(engine, after, insert_record(key, value));
    lemma_put_reads(restarted(engine).unwrap().memtable, key, value, key);
}

/// Durability of a removal: after a `remove(key)` that found the key, an
/// engine that is restarted from the log returns nothing for `key`.
pub proof fn lemma_remove_survives_restart(engine: EngineView, key: Seq<u8>)
    requires
        sound(engine),
        remove_record(key).fits(),
        engine.held(key),
    ensures
        restarted(engine.remove(key)) is Some,
        restarted(engine.remove(key)).unwrap().get(key) is None,
{
    let after = engine.remove(key);
    lemma_remove_keeps_sound(engine, key);
    lemma_restart(engine);
    lemma_restart(after);
    lemma_restart_step(engine, after, remove_record(key));
    lemma_unset_keeps_sound(restarted(engine).unwrap().memtable, key, key);
}

/// A write of a key leaves what the restarted engine returns for every
/// other key.
pub proof fn lemma_restart_keeps_other_reads(
    engine: EngineView,
    key: Seq<u8>,
    value: Seq<u8>,
    now: i64,
    other: Seq<u8>,
)
    requires
        sound(engine),
        insert_record(key, value).fits(),
        other != key,
    ensures
        restarted(engine.put(key, value, now).0).unwrap().get(other) == restarted(
            engine,
        ).unwrap().get(other),
{
    let again = restarted(engine).unwrap();
    lemma_restart(engine);
    lemma_put_logs(engine, key, value, now);
    lemma_put_keeps_sound(engine, key, value, now);
    lemma_restart(engine.put(key, value, now).0);
    lemma_restart_step(engine, engine.put(key, value, now).0, insert_record(key, value));
    lemma_put_reads(again.memtable, key, value, other);
}

/// A removal of a key leaves what the restarted engine returns for every
/// other key.
pub proof fn lemma_restart_keeps_reads_of_others(
    engine: EngineView,
    key: Seq<u8>,
    other: Seq<u8>,
)
    requires
        sound(engine),
        remove_record(key).fits(),
        other != key,
    ensures
        restarted(engine.remove(key)).unwrap().get(other) == restarted(engine).unwrap().get(
            other,
        ),
{
    let again = restarted(engine).unwrap();
    lemma_restart(engine);
    lemma_remove_keeps_sound(engine, key);
    lemma_restart(engine.remove(key));
    lemma_restart_step(engine, engine.remove(key), remove_record(key));
    lemma_unset_keeps_sound(again.memtable, key, other);
}

/// After clearing, the log agrees with the buffer: both are empty.
pub proof fn lemma_clear_agrees(engine: EngineView)
    requires
        0 < engine.memtable.filter.bits.len() <= usize::MAX,
    ensures
        log_agrees(engine.clear()),
        durable(engine.clear()),
        sound(engine.clear()),
{
    let cleared = engine.clear();
    lemma_fresh_is_sound(
        engine.memtable.capacity,
        engine.memtable.filter.bits.len() as usize,
        engine.memtable.filter.num_hashes,
    );
    assert(cleared.fresh_buffer().filter.bits =~= engine.fresh_buffer().filter.bits);
    assert(cleared.fresh_buffer() == engine.fresh_buffer());
    assert forall|key: Seq<u8>| (#[trigger] cleared.get(key)) is None by {
        lemma_get_after_clear(engine, key);
    }
    assert forall|i: int| 0 <= i < cleared.tables.len() implies blocks_wf(
        (#[trigger] cleared.tables[i]).blocks,
    ) && distinct_keys(cleared.tables[i].blocks) by {}
}

/// A write that needs no flush keeps the log in agreement with the buffer.
pub proof fn lemma_put_keeps_agreement(engine: EngineView, key: Seq<u8>, value: Seq<u8>, now: i64)
    requires
        sound(engine),
        log_agrees(engine),
        insert_record(key, value).fits(),
        !engine.is_full(),
    ensures
        engine.put(key, value, now).1 is Ok,
        log_agrees(engine.put(key, value, now).0),
{
    lemma_put_logs(engine, key, value, now);
    lemma_restart_step(engine, engine.put(key, value, now).0, insert_record(key, value));
}

/// A removal keeps the log in agreement with the buffer.
pub proof fn lemma_remove_keeps_agreement(engine: EngineView, key: Seq<u8>)
    requires
        sound(engine),
        log_agrees(engine),
        remove_record(key).fits(),
    ensures
        log_agrees(engine.remove(key)),
{
    lemma_restart_step(engine, engine.remove(key), remove_record(key));
    if engine.memtable.get(key) is None {
        assert(engine.memtable.remove(key) == engine.memtable);
    }
}

/// An engine that was restarted from its log is in agreement with its log,
/// and its writes are durable.
pub proof fn lemma_restarted_agrees(engine: EngineView)
    requires
        sound(engine),
    ensures
        log_agrees(restarted(engine).unwrap()),
        durable(restarted(engine).unwrap()),
        buffer_within_log(restarted(engine).unwrap()),
{
    let again = restarted(engine).unwrap();
    lemma_restart(engine);
    lemma_restart_same_log(engine, again);
    lemma_restart(again);
}

/// Where the log agrees with the buffer, the buffer holds a part of what the
/// log replays to: the whole of it.
pub proof fn lemma_agreement_is_within(engine: EngineView)
    requires
        log_agrees(engine),
    ensures
        buffer_within_log(engine),
{
}

/// A write that returns `Ok` leaves the buffer a part of what the log
/// replays to, whether the buffer was flushed or not.
pub proof fn lemma_put_keeps_within(engine: EngineView, key: Seq<u8>, value: Seq<u8>, now: i64)
    requires
        sound(engine),
        buffer_within_log(engine),
        insert_record(key, value).fits(),
        engine.put(key, value, now).1 is Ok,
    ensures
        buffer_within_log(engine.put(key, value, now).0),
{
    lemma_put_logs(engine, key, value, now);
    lemma_restart_step(engine, engine.put(key, value, now).0, insert_record(key, value));
}

/// A removal leaves the buffer a part of what the log replays to.
pub proof fn lemma_remove_keeps_within(engine: EngineView, key: Seq<u8>)
    requires
        sound(engine),
        buffer_within_log(engine),
        remove_record(key).fits(),
    ensures
        buffer_within_log(engine.remove(key)),
{
    let after = engine.remove(key);
    let again = restarted(engine).unwrap();
    lemma_restart(engine);
    lemma_restart_step(engine, after, remove_record(key));
    lemma_unset_keeps_sound(engine.memtable, key, key);
    lemma_unset_keeps_sound(again.memtable, key, key);
    if engine.memtable.get(key) is Some {
        assert(again.memtable.map.dom().contains(key));
        assert(again.memtable.get(key) is Some);
    }
}

/// A flush leaves the buffer a part of what the log replays to: the buffer
/// is empty.
pub proof fn lemma_flush_keeps_within(engine: EngineView, now: i64)
    requires
        sound(engine),
    ensures
        buffer_within_log(engine.flushed(now)),
        buffer_within_log(engine.renewed(now)),
{
    lemma_restart_same_log(engine, engine.flushed(now));
    lemma_restart_same_log(engine, engine.renewed(now));
}

/// A write that returns `Ok` keeps the engine's writes durable.
pub proof fn lemma_put_keeps_durable(engine: EngineView, key: Seq<u8>, value: Seq<u8>, now: i64)
    requires
        sound(engine),
        durable(engine),
        insert_record(key, value).fits(),
        engine.put(key, value, now).1 is Ok,
    ensures
        durable(engine.put(key, value, now).0),
{
    let after = engine.put(key, value, now).0;
    lemma_put_survives_restart(engine, key, value, now);
    lemma_get_after_put(engine, key, value, now);
    assert forall|other: Seq<u8>| (#[trigger] after.get(other)) is Some implies restarted(
        after,
    ).unwrap().get(other) == after.get(other) by {
        if other != key {
            lemma_put_keeps_other_reads(engine, key, value, now, other);
            lemma_restart_keeps_other_reads(engine, key, value, now, other);
            assert(engine.get(other) is Some);
        }
    }
}

/// A removal of a key that is held in one place at most keeps the engine's
/// writes durable.
pub proof fn lemma_remove_keeps_durable(engine: EngineView, key: Seq<u8>)
    requires
        sound(engine),
        durable(engine),
        remove_record(key).fits(),
        engine.held_once(key),
    ensures
        durable(engine.remove(key)),
{
    let after = engine.remove(key);
    lemma_remove_keeps_sound(engine, key);
    lemma_restart(after);
    lemma_get_after_remove(engine, key);
    assert forall|other: Seq<u8>| (#[trigger] after.get(other)) is Some implies restarted(
        after,
    ).unwrap().get(other) == after.get(other) by {
        lemma_remove_keeps_other_reads(engine, key, other);
        lemma_restart_keeps_reads_of_others(engine, key, other);
        assert(engine.get(other) is Some);
    }
}

/// An update that returns `Ok` keeps the engine's writes durable, in
/// however many places the key was held: the new value is read from the
/// buffer, which is searched first.
pub proof fn lemma_update_keeps_durable(
    engine: EngineView,
    key: Seq<u8>,
    value: Seq<u8>,
    now: i64,
)
    requires
        sound(engine),
        durable(engine),
        insert_record(key, value).fits(),
        engine.remove(key).put(key, value, now).1 is Ok,
    ensures
        durable(engine.remove(key).put(key, value, now).0),
{
    let removed = engine.remove(key);
    let after = removed.put(key, value, now).0;
    lemma_remove_record_fits(key, value);
    lemma_remove_keeps_sound(engine, key);
    lemma_put_survives_restart(removed, key, value, now);
    lemma_get_after_put(removed, key, value, now);
    assert forall|other: Seq<u8>| (#[trigger] after.get(other)) is Some implies restarted(
        after,
    ).unwrap().get(other) == after.get(other) by {
        if other != key {
            lemma_remove_keeps_other_reads(engine, key, other);
            lemma_put_keeps_other_reads(removed, key, value, now, other);
            lemma_restart_keeps_reads_of_others(engine, key, other);
            lemma_restart_keeps_other_reads(removed, key, value, now, other);
            assert(engine.get(other) is Some);
        }
    }
}

/// A flush keeps the engine's writes durable.
pub proof fn lemma_flush_keeps_durable(engine: EngineView, now: i64)
    requires
        sound(engine),
        durable(engine),
        fits_blocks(engine.memtable.map),
    ensures
        durable(engine.flushed(now)),
{
    let after = engine.flushed(now);
    lemma_restart_same_log(engine, after);
    lemma_flush_keeps_sound(engine, now);
    lemma_restart(engine);
    lemma_restart(after);
    assert forall|key: Seq<u8>| (#[trigger] after.get(key)) is Some implies restarted(
        after,
    ).unwrap().get(key) == after.get(key) by {
        lemma_flush_keeps_reads(engine, now, key);
        assert(engine.get(key) is Some);
    }
}

/// Opening an engine on the log of an engine, with the capacity and the
/// filter dimensions of its buffer, is a restart of that engine.
pub proof fn lemma_opened_is_restart(
    before: EngineView,
    engine: crate::api::StorageEngine,
    capacity: nat,
    num_bits: usize,
    num_hashes: usize,
)
    requires
        crate::api::opened(engine, capacity, num_bits, num_hashes, before.wal),
        before.memtable.capacity == capacity,
        before.memtable.filter.bits.len() == num_bits,
        before.memtable.filter.num_hashes == num_hashes,
    ensures
        restarted(before) == Some(engine@),
{
    assert(before.fresh_buffer() == MemView::fresh(capacity, num_bits, num_hashes));
}

/// Durability: what the engine returns for a key it returns after a crash
/// and a restart from its log.
pub proof fn lemma_restart_keeps_writes(engine: EngineView, key: Seq<u8>, value: Seq<u8>)
    requires
        durable(engine),
        engine.get(key) == Some(value),
    ensures
        restarted(engine).unwrap().get(key) == Some(value),
{
}

/// An engine that was opened on a log image is sound, its log agrees with
/// its buffer, and its writes are durable.
pub proof fn lemma_opened_agrees(
    engine: crate::api::StorageEngine,
    capacity: nat,
    num_bits: usize,
    num_hashes: usize,
    wal_image: Seq<u8>,
)
    requires
        crate::api::opened(engine, capacity, num_bits, num_hashes, wal_image),
        num_bits > 0,
    ensures
        sound(engine@),
        log_agrees(engine@),
        durable(engine@),
        buffer_within_log(engine@),
{
    let origin = EngineView {
        memtable: MemView::fresh(capacity, num_bits, num_hashes),
        wal: wal_image,
        tables: Seq::empty(),
    };
    lemma_fresh_is_sound(capacity, num_bits, num_hashes);
    assert(origin.fresh_buffer() == MemView::fresh(capacity, num_bits, num_hashes));
    assert(restarted(origin) == Some(engine@));
    lemma_restart(origin);
    lemma_restarted_agrees(origin);
}

/// A full buffer is flushed by the next write: where the buffer is due to
/// be flushed and each of its entries fits a block, the write returns `Ok`,
/// a new table stands in front of the tables and holds what the buffer
/// held, the buffer holds the written entry and no other, and every key is
/// read as before but for the written one.
pub proof fn lemma_full_buffer_is_flushed(
    engine: EngineView,
    key: Seq<u8>,
    value: Seq<u8>,
    now: i64,
    other: Seq<u8>,
)
    requires
        sound(engine),
        insert_record(key, value).fits(),
        engine.is_full(),
        fits_blocks(engine.memtable.map),
        other != key,
    ensures
        engine.put(key, value, now).1 is Ok,
        engine.put(key, value, now).0.tables.len() == engine.tables.len() + 1,
        engine.put(key, value, now).0.tables[0].contents() == engine.memtable.map,
        engine.put(key, value, now).0.tables[0].created_at == stamp_for(engine.tables, now),
        engine.put(key, value, now).0.memtable.map == Map::<Seq<u8>, Seq<u8>>::empty().insert(
            key,
            value,
        ),
        engine.put(key, value, now).0.get(key) == Some(value),
        engine.put(key, value, now).0.get(other) == engine.get(other),
{
    lemma_flushed_table(engine.memtable.map);
    lemma_get_after_put(engine, key, value, now);
    lemma_put_keeps_other_reads(engine, key, value, now, other);
}

/// A call of the engine.
pub ghost enum Call {
    Put { key: Seq<u8>, value: Seq<u8>, now: i64 },
    Remove { key: Seq<u8> },
    Update { key: Seq<u8>, value: Seq<u8>, now: i64 },
}

/// The engine after a call.
pub open spec fn after_call(engine: EngineView, call: Call) -> EngineView {
    match call {
        Call::Put { key, value, now } => engine.put(key, value, now).0,
        Call::Remove { key } => engine.remove(key),
        Call::Update { key, value, now } => engine.remove(key).put(key, value, now).0,
    }
}

/// The engine after a row of calls, one after the other.
pub open spec fn after_calls(engine: EngineView, calls: Seq<Call>) -> EngineView
    decreases calls.len(),
{
    if calls.len() == 0 {
        engine
    } else {
        after_call(after_calls(engine, calls.drop_last()), calls.last())
    }
}

/// The call's records fit a frame of the log, and its write returns `Ok`.
pub open spec fn fitting_call(engine: EngineView, call: Call) -> bool {
    match call {
        Call::Put { key, value, now } => insert_record(key, value).fits() && engine.put(
            key,
            value,
            now,
        ).1 is Ok,
        Call::Remove { key } => remove_record(key).fits(),
        Call::Update { key, value, now } => insert_record(key, value).fits() && engine.remove(
            key,
        ).put(key, value, now).1 is Ok,
    }
}

/// The call flushes no buffer: its write meets a buffer that is not full.
pub open spec fn quiet_call(engine: EngineView, call: Call) -> bool {
    match call {
        Call::Put { key, value, now } => !engine.is_full(),
        Call::Remove { key } => true,
        Call::Update { key, value, now } => !engine.remove(key).is_full(),
    }
}

/// A removal meets a key that is held in one place at most.
pub open spec fn single_call(engine: EngineView, call: Call) -> bool {
    match call {
        Call::Put { key, value, now } => true,
        Call::Remove { key } => engine.held_once(key),
        Call::Update { key, value, now } => true,
    }
}

/// Every removal of the row meets a key that is held in one place at most.
pub open spec fn single_calls(engine: EngineView, calls: Seq<Call>) -> bool
    decreases calls.len(),
{
    calls.len() == 0 || (single_calls(engine, calls.drop_last()) && single_call(
        after_calls(engine, calls.drop_last()),
        calls.last(),
    ))
}

/// Every call of the row fits, each on the engine that the calls before it
/// left.
pub open spec fn fitting_calls(engine: EngineView, calls: Seq<Call>) -> bool
    decreases calls.len(),
{
    calls.len() == 0 || (fitting_calls(engine, calls.drop_last()) && fitting_call(
        after_calls(engine, calls.drop_last()),
        calls.last(),
    ))
}

/// No call of the row flushes a buffer.
pub open spec fn quiet_calls(engine: EngineView, calls: Seq<Call>) -> bool
    decreases calls.len(),
{
    calls.len() == 0 || (quiet_calls(engine, calls.drop_last()) && quiet_call(
        after_calls(engine, calls.drop_last()),
        calls.last(),
    ))
}

/// A record that fits with a value fits without one.
pub proof fn lemma_remove_record_fits(key: Seq<u8>, value: Seq<u8>)
    requires
        insert_record(key, value).fits(),
    ensures
        remove_record(key).fits(),
{
}

/// A call leaves the buffer its capacity and its filter its dimensions.
pub proof fn lemma_call_keeps_dimensions(engine: EngineView, call: Call)
    requires
        0 < engine.memtable.filter.bits.len() <= usize::MAX,
    ensures
        same_dimensions(after_call(engine, call).memtable, engine.memtable),
{
    match call {
        Call::Put { key, value, now } => {
            lemma_put_logs(engine, key, value, now);
        },
        Call::Remove { key } => {},
        Call::Update { key, value, now } => {
            lemma_put_logs(engine.remove(key), key, value, now);
        },
    }
}

/// Agreement of log and buffer over any row of calls: where the log agrees
/// with the buffer and writes, removals and updates follow that flush no
/// buffer, replaying the log from empty gives the live buffer.
pub proof fn lemma_calls_keep_agreement(engine: EngineView, calls: Seq<Call>)
    requires
        sound(engine),
        log_agrees(engine),
        fitting_calls(engine, calls),
        quiet_calls(engine, calls),
    ensures
        sound(after_calls(engine, calls)),
        log_agrees(after_calls(engine, calls)),
        same_dimensions(after_calls(engine, calls).memtable, engine.memtable),
    decreases calls.len(),
{
    if calls.len() > 0 {
        lemma_calls_keep_agreement(engine, calls.drop_last());
        let before = after_calls(engine, calls.drop_last());
        lemma_call_keeps_dimensions(before, calls.last());
        match calls.last() {
            Call::Put { key, value, now } => {
                lemma_put_keeps_sound(before, key, value, now);
                lemma_put_keeps_agreement(before, key, value, now);
            },
            Call::Remove { key } => {
                lemma_remove_keeps_sound(before, key);
                lemma_remove_keeps_agreement(before, key);
            },
            Call::Update { key, value, now } => {
                lemma_remove_record_fits(key, value);
                lemma_remove_keeps_sound(before, key);
                lemma_remove_keeps_agreement(before, key);
                lemma_put_keeps_sound(before.remove(key), key, value, now);
                lemma_put_keeps_agreement(before.remove(key), key, value, now);
            },
        }
    }
}

/// Durability over any row of calls, flushes included: where the engine's
/// writes are durable and its buffer is a part of what its log replays to,
/// they are so after writes and updates that return `Ok` and removals of
/// keys that are held in one place at most. So the engine that a restart
/// gives returns every value that the live engine returns.
pub proof fn lemma_calls_keep_durable(engine: EngineView, calls: Seq<Call>)
    requires
        sound(engine),
        durable(engine),
        buffer_within_log(engine),
        fitting_calls(engine, calls),
        single_calls(engine, calls),
    ensures
        sound(after_calls(engine, calls)),
        durable(after_calls(engine, calls)),
        buffer_within_log(after_calls(engine, calls)),
        same_dimensions(after_calls(engine, calls).memtable, engine.memtable),
    decreases calls.len(),
{
    if calls.len() > 0 {
        lemma_calls_keep_durable(engine, calls.drop_last());
        let before = after_calls(engine, calls.drop_last());
        lemma_call_keeps_dimensions(before, calls.last());
        match calls.last() {
            Call::Put { key, value, now } => {
                lemma_put_keeps_sound(before, key, value, now);
                lemma_put_keeps_durable(before, key, value, now);
                lemma_put_keeps_within(before, key, value, now);
            },
            Call::Remove { key } => {
                lemma_remove_keeps_sound(before, key);
                lemma_remove_keeps_durable(before, key);
                lemma_remove_keeps_within(before, key);
            },
            Call::Update { key, value, now } => {
                lemma_remove_record_fits(key, value);
                lemma_remove_keeps_sound(before, key);
                lemma_remove_keeps_within(before, key);
                lemma_put_keeps_sound(before.remove(key), key, value, now);
                lemma_update_keeps_durable(before, key, value, now);
                lemma_put_keeps_within(before.remove(key), key, value, now);
            },
        }
    }
}

/// Durability: an engine is opened, calls follow, the engine stops, and an
/// engine is opened on the log that it left. Where the writes and updates
/// returned `Ok` and the removals met keys that were held in one place at
/// most, the second engine returns every value that the first returned at
/// the end.
pub proof fn lemma_crash_and_restart(
    first: crate::api::StorageEngine,
    calls: Seq<Call>,
    second: crate::api::StorageEngine,
    capacity: nat,
    num_bits: usize,
    num_hashes: usize,
    wal_image: Seq<u8>,
    key: Seq<u8>,
)
    requires
        num_bits > 0,
        crate::api::opened(first, capacity, num_bits, num_hashes, wal_image),
        fitting_calls(first@, calls),
        single_calls(first@, calls),
        crate::api::opened(
            second,
            capacity,
            num_bits,
            num_hashes,
            after_calls(first@, calls).wal,
        ),
    ensures
        after_calls(first@, calls).get(key) is Some ==> second@.get(key) == after_calls(
            first@,
            calls,
        ).get(key),
{
    let after = after_calls(first@, calls);
    lemma_opened_agrees(first, capacity, num_bits, num_hashes, wal_image);
    lemma_fresh_is_sound(capacity, num_bits, num_hashes);
    lemma_replay_is_sound(
        MemView::fresh(capacity, num_bits, num_hashes),
        parse_log(wal_image).unwrap(),
    );
    lemma_calls_keep_durable(first@, calls);
    lemma_opened_is_restart(after, second, capacity, num_bits, num_hashes);
}

/// Agreement of log and buffer: an engine is opened, calls follow that
/// flush no buffer, and an engine is opened on the log that the first left.
/// The buffer of the second is the buffer of the first: the same entries,
/// the same counters, the same filter.
pub proof fn lemma_replay_gives_live_buffer(
    first: crate::api::StorageEngine,
    calls: Seq<Call>,
    second: crate::api::StorageEngine,
    capacity: nat,
    num_bits: usize,
    num_hashes: usize,
    wal_image: Seq<u8>,
)
    requires
        num_bits > 0,
        crate::api::opened(first, capacity, num_bits, num_hashes, wal_image),
        fitting_calls(first@, calls),
        quiet_calls(first@, calls),
        crate::api::opened(
            second,
            capacity,
            num_bits,
            num_hashes,
            after_calls(first@, calls).wal,
        ),
    ensures
        second@.memtable == after_calls(first@, calls).memtable,
{
    let after = after_calls(first@, calls);
    lemma_opened_agrees(first, capacity, num_bits, num_hashes, wal_image);
    lemma_fresh_is_sound(capacity, num_bits, num_hashes);
    lemma_replay_is_sound(
        MemView::fresh(capacity, num_bits, num_hashes),
        parse_log(wal_image).unwrap(),
    );
    lemma_calls_keep_agreement(first@, calls);
    lemma_opened_is_restart(after, second, capacity, num_bits, num_hashes);
}

/// A log that was cut inside a record opens no engine: opening is refused,
/// with `Corruption` and the defect of the part that was left.
pub proof fn lemma_cut_log_opens_no_engine(
    engine: crate::api::StorageEngine,
    capacity: nat,
    num_bits: usize,
    num_hashes: usize,
    records: Seq<Record>,
    record: Record,
    cut: int,
    error: crate::error::Error,
)
    requires
        crate::write_ahead_log::all_fit(records),
        record.fits(),
        0 < cut < record.frame().len(),
    ensures
        !crate::api::opened(
            engine,
            capacity,
            num_bits,
            num_hashes,
            crate::write_ahead_log::log_bytes(records) + record.frame().subrange(0, cut),
        ),
        crate::api::refused(
            error,
            crate::write_ahead_log::log_bytes(records) + record.frame().subrange(0, cut),
        ) <==> error == crate::error::Error::Corruption(
            if cut < 13 {
                crate::error::WalError::TooShort
            } else {
                crate::error::WalError::LengthMismatch
            },
        ),
{
    crate::write_ahead_log::lemma_cut_log_is_refused(records, record, cut);
}

} // verus!
