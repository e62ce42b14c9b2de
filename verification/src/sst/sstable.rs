//! A sorted string table: the entries of a flushed write buffer, kept in a
//! row of blocks.
//!
//! Entries go into the last block; where that block cannot take an entry, a
//! new block is opened. A lookup walks the blocks from the oldest to the
//! newest and returns the first hit; a removal walks them from the newest to
//! the oldest and removes the first hit.

use crate::api::join_path;
use crate::error::Error;
use crate::sst::sst_block::{entry_size, Block, BlockView, BLOCK_SIZE};
use vstd::prelude::*;
use vstd::string::StringExecFns;

verus! {

/// The first block from `from` on that holds `key`, or the number of blocks
/// where none does.
pub open spec fn first_holding(blocks: Seq<BlockView>, key: Seq<u8>, from: int) -> int
    decreases blocks.len() - from,
{
    if from >= blocks.len() {
        blocks.len() as int
    } else if from >= 0 && blocks[from].entries().dom().contains(key) {
        from
    } else {
        first_holding(blocks, key, from + 1)
    }
}

/// The last block before `upto` that holds `key`, or `-1` where none does.
pub open spec fn last_holding(blocks: Seq<BlockView>, key: Seq<u8>, upto: int) -> int
    decreases upto,
{
    if upto <= 0 {
        -1
    } else if upto <= blocks.len() && blocks[upto - 1].entries().dom().contains(key) {
        upto - 1
    } else {
        last_holding(blocks, key, upto - 1)
    }
}

/// The value of `key` in the first block that holds it.
pub open spec fn lookup(blocks: Seq<BlockView>, key: Seq<u8>) -> Option<Seq<u8>> {
    let at = first_holding(blocks, key, 0);
    if at < blocks.len() {
        Some(blocks[at].entries()[key])
    } else {
        None
    }
}

/// Whether an entry `(key, value)` opens a new block: there is no block yet,
/// or the last one cannot take the entry.
pub open spec fn opens_block(blocks: Seq<BlockView>, key: Seq<u8>, value: Seq<u8>) -> bool {
    blocks.len() == 0 || blocks.last().is_full(entry_size(key, value))
}

/// The name of the file of a table that was created at `created_at`
/// milliseconds since the epoch.
pub open spec fn file_name_of(created_at: i64) -> Seq<char> {
    "sstable_"@ + decimal(created_at as int) + ".dat"@
}

/// The decimal digits of a number that is not negative.
pub open spec fn digits(number: nat) -> Seq<char>
    decreases number,
{
    if number < 10 {
        seq![digit(number)]
    } else {
        digits(number / 10).push(digit(number % 10))
    }
}

/// The character of a digit.
pub open spec fn digit(number: nat) -> char {
    if number == 0 {
        '0'
    } else if number == 1 {
        '1'
    } else if number == 2 {
        '2'
    } else if number == 3 {
        '3'
    } else if number == 4 {
        '4'
    } else if number == 5 {
        '5'
    } else if number == 6 {
        '6'
    } else if number == 7 {
        '7'
    } else if number == 8 {
        '8'
    } else {
        '9'
    }
}

/// A number in decimal, with a minus sign in front where it is negative.
pub open spec fn decimal(number: int) -> Seq<char> {
    if number < 0 {
        seq!['-'] + digits((-number) as nat)
    } else {
        digits(number as nat)
    }
}

/// The text of a digit.
fn digit_text(number: u64) -> (text: &'static str)
    requires
        number < 10,
    ensures
        text@ == seq![digit(number as nat)],
{
    proof {
        reveal_strlit("0");
        reveal_strlit("1");
        reveal_strlit("2");
        reveal_strlit("3");
        reveal_strlit("4");
        reveal_strlit("5");
        reveal_strlit("6");
        reveal_strlit("7");
        reveal_strlit("8");
        reveal_strlit("9");
    }
    let text = if number == 0 {
        "0"
    } else if number == 1 {
        "1"
    } else if number == 2 {
        "2"
    } else if number == 3 {
        "3"
    } else if number == 4 {
        "4"
    } else if number == 5 {
        "5"
    } else if number == 6 {
        "6"
    } else if number == 7 {
        "7"
    } else if number == 8 {
        "8"
    } else {
        "9"
    };
    assert(text@ =~= seq![digit(number as nat)]);
    text
}

/// Writes a number in decimal.
pub fn decimal_text(number: i64) -> (text: String)
    ensures
        text@ == decimal(number as int),
{
    let magnitude: u64 = if number < 0 {
        ((-(number + 1)) as u64) + 1
    } else {
        number as u64
    };
    let mut text = String::from_str(digit_text(magnitude % 10));
    let mut rest: u64 = magnitude / 10;
    let ghost mut done: nat = (magnitude % 10) as nat;
    let ghost mut scale: nat = 10;
    proof {
        assert(digits((magnitude % 10) as nat) == seq![digit((magnitude % 10) as nat)]);
    }
    while rest > 0
        invariant
            forall|high: nat| high > 0 ==> #[trigger] digits(high).add(text@) == digits(high * scale + done),
            rest == 0 ==> text@ == digits(magnitude as nat),
            rest as nat * scale + done == magnitude,
            done < scale,
            scale >= 10,
        decreases rest,
    {
        let lead = String::from_str(digit_text(rest % 10));
        let ghost low = (rest % 10) as nat;
        let ghost old_text = text@;
        let ghost old_scale = scale;
        let ghost old_done = done;
        text = lead.concat(text.as_str());
        proof {
            done = low * old_scale + old_done;
            scale = old_scale * 10;
            assert(low * old_scale + old_done < old_scale * 10) by (nonlinear_arith)
                requires
                    low < 10,
                    old_done < old_scale,
            ;
            assert((rest / 10) as nat * scale + done == magnitude) by (nonlinear_arith)
                requires
                    rest as nat * old_scale + old_done == magnitude,
                    done == (rest % 10) as nat * old_scale + old_done,
                    scale == old_scale * 10,
            ;
            assert forall|high: nat| high > 0 implies #[trigger] digits(high).add(text@) == digits(
                high * scale + done,
            ) by {
                let joined = high * 10 + low;
                assert(joined > 0);
                assert(digits(joined) == digits(high).push(digit(low))) by {
                    assert(joined / 10 == high && joined % 10 == low);
                }
                assert(digits(joined).add(old_text) == digits(joined * old_scale + old_done));
                assert(digits(high).add(text@) =~= digits(joined).add(old_text));
                assert(joined * old_scale + old_done == high * scale + done) by (nonlinear_arith)
                    requires
                        joined == high * 10 + low,
                        scale == old_scale * 10,
                        done == low * old_scale + old_done,
                ;
            }
            if rest / 10 == 0 {
                assert(rest as nat == low);
                if low > 0 {
                    assert(digits(low) == seq![digit(low)]);
                    assert(digits(low).add(old_text) == digits(low * old_scale + old_done));
                    assert(text@ =~= digits(low).add(old_text));
                }
            }
        }
        rest = rest / 10;
    }
    if number < 0 {
        proof {
            reveal_strlit("-");
        }
        let sign = String::from_str("-");
        assert("-"@ =~= seq!['-']);
        sign.concat(text.as_str())
    } else {
        text
    }
}

/// The state of a table.
pub ghost struct SSTableView {
    pub blocks: Seq<BlockView>,
    pub created_at: i64,
    pub file_path: Seq<char>,
}

/// A sorted string table.
pub struct SSTable {
    file_path: String,
    blocks: Vec<Block>,
    created_at: i64,
}

impl View for SSTable {
    type V = SSTableView;

    closed spec fn view(&self) -> SSTableView {
        SSTableView {
            blocks: Seq::new(self.blocks@.len(), |i: int| self.blocks@[i]@),
            created_at: self.created_at,
            file_path: self.file_path@,
        }
    }
}

/// Every block of `blocks` is in order and has the default capacity.
pub open spec fn blocks_wf(blocks: Seq<BlockView>) -> bool {
    forall|i: int|
        0 <= i < blocks.len() ==> (#[trigger] blocks[i]).wf() && blocks[i].capacity == BLOCK_SIZE
}

/// Block `at` of `blocks` holds `key`.
pub open spec fn holds_at(blocks: Seq<BlockView>, key: Seq<u8>, at: int) -> bool {
    0 <= at < blocks.len() && blocks[at].entries().dom().contains(key)
}

/// No key is held by two blocks.
pub open spec fn distinct_keys(blocks: Seq<BlockView>) -> bool {
    forall|key: Seq<u8>, i: int, j: int|
        #[trigger] holds_at(blocks, key, i) && #[trigger] holds_at(blocks, key, j) ==> i == j
}

/// What a lookup finds in `blocks`, key by key.
pub open spec fn contents(blocks: Seq<BlockView>) -> Map<Seq<u8>, Seq<u8>> {
    Map::new(
        |key: Seq<u8>| lookup(blocks, key) is Some,
        |key: Seq<u8>| lookup(blocks, key).unwrap(),
    )
}

/// The first holder from `from` on holds the key, and no block between
/// `from` and it does.
pub proof fn lemma_first_holding(blocks: Seq<BlockView>, key: Seq<u8>, from: int)
    requires
        0 <= from <= blocks.len(),
    ensures
        from <= first_holding(blocks, key, from) <= blocks.len(),
        first_holding(blocks, key, from) < blocks.len() ==> holds_at(
            blocks,
            key,
            first_holding(blocks, key, from),
        ),
        forall|i: int| from <= i < first_holding(blocks, key, from) ==> !holds_at(blocks, key, i),
    decreases blocks.len() - from,
{
    if from < blocks.len() && !blocks[from].entries().dom().contains(key) {
        lemma_first_holding(blocks, key, from + 1);
    }
}

/// The last holder before `upto` holds the key, and no block between it and
/// `upto` does.
pub proof fn lemma_last_holding(blocks: Seq<BlockView>, key: Seq<u8>, upto: int)
    requires
        0 <= upto <= blocks.len(),
    ensures
        -1 <= last_holding(blocks, key, upto) < upto,
        last_holding(blocks, key, upto) >= 0 ==> holds_at(
            blocks,
            key,
            last_holding(blocks, key, upto),
        ),
        forall|i: int| last_holding(blocks, key, upto) < i < upto ==> !holds_at(blocks, key, i),
    decreases upto,
{
    if upto > 0 && !blocks[upto - 1].entries().dom().contains(key) {
        lemma_last_holding(blocks, key, upto - 1);
    }
}

/// Where no key is held twice, a lookup finds what the holder holds.
pub proof fn lemma_lookup_holder(blocks: Seq<BlockView>, key: Seq<u8>, at: int)
    requires
        distinct_keys(blocks),
        holds_at(blocks, key, at),
    ensures
        lookup(blocks, key) == Some(blocks[at].entries()[key]),
        contents(blocks).dom().contains(key),
        contents(blocks)[key] == blocks[at].entries()[key],
{
    lemma_first_holding(blocks, key, 0);
    let first = first_holding(blocks, key, 0);
    if first < blocks.len() {
        assert(holds_at(blocks, key, first));
    } else {
        assert(!holds_at(blocks, key, at));
    }
}

/// A lookup finds nothing exactly where no block holds the key.
pub proof fn lemma_lookup_none(blocks: Seq<BlockView>, key: Seq<u8>)
    ensures
        lookup(blocks, key) is None <==> (forall|i: int| !holds_at(blocks, key, i)),
        contents(blocks).dom().contains(key) <==> (exists|i: int| holds_at(blocks, key, i)),
{
    lemma_first_holding(blocks, key, 0);
    let first = first_holding(blocks, key, 0);
    if first < blocks.len() {
        assert(holds_at(blocks, key, first));
    } else {
        assert forall|i: int| !holds_at(blocks, key, i) by {}
    }
}

/// The blocks after the entry `(key, value)` was set: a new block is opened
/// where there is none or the last one cannot take the entry, and the entry
/// is appended to the last block, unless it is too large for an empty block.
pub open spec fn blocks_with(blocks: Seq<BlockView>, key: Seq<u8>, value: Seq<u8>) -> Seq<
    BlockView,
> {
    let opened = if opens_block(blocks, key, value) {
        blocks.push(BlockView::empty(BLOCK_SIZE as nat))
    } else {
        blocks
    };
    if entry_size(key, value) > BLOCK_SIZE {
        opened
    } else {
        opened.update(opened.len() - 1, opened.last().appended(key, value))
    }
}

/// The blocks after `key` was removed: from the last block that holds it.
pub open spec fn blocks_without(blocks: Seq<BlockView>, key: Seq<u8>) -> Seq<BlockView> {
    let at = last_holding(blocks, key, blocks.len() as int);
    if at < 0 {
        blocks
    } else {
        blocks.update(at, blocks[at].without(key))
    }
}

/// The blocks of a table into which `entries` were set in order.
pub open spec fn filled(entries: Seq<(Seq<u8>, Seq<u8>)>) -> Seq<BlockView>
    decreases entries.len(),
{
    if entries.len() == 0 {
        Seq::empty()
    } else {
        blocks_with(filled(entries.drop_last()), entries.last().0, entries.last().1)
    }
}

/// What setting an entry under a new key does to a table in which no key is
/// held twice: the blocks stay in order, no key comes to be held twice, and a
/// lookup finds the new entry besides what it found before.
pub proof fn lemma_blocks_with(blocks: Seq<BlockView>, key: Seq<u8>, value: Seq<u8>)
    requires
        blocks_wf(blocks),
        distinct_keys(blocks),
        !contents(blocks).dom().contains(key),
        entry_size(key, value) <= BLOCK_SIZE,
    ensures
        blocks_wf(blocks_with(blocks, key, value)),
        distinct_keys(blocks_with(blocks, key, value)),
        contents(blocks_with(blocks, key, value)) == contents(blocks).insert(key, value),
{
    let after = blocks_with(blocks, key, value);
    let previous = if opens_block(blocks, key, value) {
        BlockView::empty(BLOCK_SIZE as nat)
    } else {
        blocks.last()
    };
    if !opens_block(blocks, key, value) {
        assert(blocks[blocks.len() - 1].wf());
    }
    crate::sst::sst_block::lemma_appended(previous, key, value);
    assert forall|i: int| 0 <= i < after.len() implies (#[trigger] after[i]).wf()
        && after[i].capacity == BLOCK_SIZE by {
        if i < after.len() - 1 {
            assert(after[i] == blocks[i]);
        }
    }
    lemma_set_contents(blocks, after, key, value);
}

/// What removing a key does to a table in which no key is held twice: the
/// blocks stay in order, and a lookup finds what it found before but for the
/// key.
pub proof fn lemma_blocks_without(blocks: Seq<BlockView>, key: Seq<u8>)
    requires
        blocks_wf(blocks),
        distinct_keys(blocks),
    ensures
        blocks_wf(blocks_without(blocks, key)),
        distinct_keys(blocks_without(blocks, key)),
        contents(blocks_without(blocks, key)) == contents(blocks).remove(key),
        last_holding(blocks, key, blocks.len() as int) >= 0 <==> contents(blocks).dom().contains(
            key,
        ),
{
    let after = blocks_without(blocks, key);
    let at = last_holding(blocks, key, blocks.len() as int);
    lemma_last_holding(blocks, key, blocks.len() as int);
    lemma_lookup_none(blocks, key);
    if at >= 0 {
        assert(blocks[at].wf());
        crate::sst::sst_block::lemma_without(blocks[at], key);
        assert forall|i: int| 0 <= i < after.len() implies (#[trigger] after[i]).wf()
            && after[i].capacity == BLOCK_SIZE by {
            if i != at {
                assert(after[i] == blocks[i]);
            }
        }
        lemma_remove_contents(blocks, after, key, at);
    } else {
        assert(contents(blocks).remove(key) =~= contents(blocks));
    }
}

/// A table that was filled with sorted entries, each of which fits a block,
/// holds each key once, and a lookup finds in it what the entries map their
/// keys to.
pub proof fn lemma_filled(entries: Seq<(Seq<u8>, Seq<u8>)>)
    requires
        crate::memtable::sorted_pairs(entries),
        forall|i: int|
            0 <= i < entries.len() ==> entry_size((#[trigger] entries[i]).0, entries[i].1)
                <= BLOCK_SIZE,
    ensures
        blocks_wf(filled(entries)),
        distinct_keys(filled(entries)),
        contents(filled(entries)) == crate::memtable::pair_map(entries),
    decreases entries.len(),
{
    if entries.len() == 0 {
        assert(contents(filled(entries)) =~= crate::memtable::pair_map(entries)) by {
            assert forall|key: Seq<u8>| !(#[trigger] contents(filled(entries)).dom().contains(
                key,
            )) by {
                lemma_lookup_none(filled(entries), key);
            }
        }
    } else {
        let front = entries.drop_last();
        let last = entries.len() - 1;
        let keys = crate::order::keys_by(entries, crate::memtable::pair_key());
        let front_keys = crate::order::keys_by(front, crate::memtable::pair_key());
        assert(crate::memtable::sorted_pairs(front)) by {
            assert forall|i: int, j: int| 0 <= i < j < front_keys.len() implies crate::order::lex_lt(
                #[trigger] front_keys[i],
                #[trigger] front_keys[j],
            ) by {
                assert(front_keys[i] == keys[i] && front_keys[j] == keys[j]);
            }
        }
        assert forall|i: int| 0 <= i < front.len() implies entry_size(
            (#[trigger] front[i]).0,
            front[i].1,
        ) <= BLOCK_SIZE by {
            assert(front[i] == entries[i]);
        }
        lemma_filled(front);
        assert(crate::order::splits_at(front_keys, entries[last].0, last)) by {
            assert forall|i: int| 0 <= i < last implies crate::order::lex_lt(
                #[trigger] front_keys[i],
                entries[last].0,
            ) by {
                assert(front_keys[i] == keys[i] && entries[last].0 == keys[last]);
            }
        }
        crate::memtable::lemma_pair_map_absent(front, entries[last].0, last);
        crate::memtable::lemma_pair_map_insert(front, last, entries[last]);
        assert(front.insert(last, entries[last]) == entries);
        lemma_blocks_with(filled(front), entries[last].0, entries[last].1);
    }
}

/// What appending an entry under a new key to the last block does to a
/// table in which no key is held twice.
proof fn lemma_set_contents(
    before: Seq<BlockView>,
    after: Seq<BlockView>,
    key: Seq<u8>,
    value: Seq<u8>,
)
    requires
        distinct_keys(before),
        !contents(before).dom().contains(key),
        after.len() == before.len() + (if opens_block(before, key, value) {
            1int
        } else {
            0int
        }),
        forall|i: int| 0 <= i < after.len() - 1 ==> after[i] == before[i],
        after.last().entries() == (if opens_block(before, key, value) {
            BlockView::empty(BLOCK_SIZE as nat)
        } else {
            before.last()
        }).entries().insert(key, value),
    ensures
        distinct_keys(after),
        contents(after) == contents(before).insert(key, value),
{
    let last = after.len() - 1;
    let previous = if opens_block(before, key, value) {
        BlockView::empty(BLOCK_SIZE as nat)
    } else {
        before.last()
    };
    lemma_lookup_none(before, key);
    assert(BlockView::empty(BLOCK_SIZE as nat).entries() =~= Map::<Seq<u8>, Seq<u8>>::empty());
    assert forall|k: Seq<u8>, i: int| #[trigger] holds_at(after, k, i) implies (i == last && k
        == key) || holds_at(before, k, i) by {
        if i == last && k != key {
            assert(previous.entries().dom().contains(k));
        }
    }
    assert forall|k: Seq<u8>, i: int| #[trigger] holds_at(before, k, i) implies holds_at(
        after,
        k,
        i,
    ) && after[i].entries()[k] == before[i].entries()[k] by {
        assert(k != key);
        if i == last {
            assert(after[i].entries()[k] == previous.entries().insert(key, value)[k]);
        }
    }
    assert(holds_at(after, key, last));
    assert forall|k: Seq<u8>, i: int, j: int| #[trigger]
        holds_at(after, k, i) && #[trigger] holds_at(after, k, j) implies i == j by {
        if k == key {
            assert(!holds_at(before, k, i) && !holds_at(before, k, j));
        } else {
            assert(holds_at(before, k, i) && holds_at(before, k, j));
        }
    }
    assert forall|k: Seq<u8>|
        (#[trigger] contents(after).dom().contains(k)) == contents(before).insert(
            key,
            value,
        ).dom().contains(k) && (contents(after).dom().contains(k) ==> contents(after)[k]
            == contents(before).insert(key, value)[k]) by {
        lemma_lookup_none(after, k);
        lemma_lookup_none(before, k);
        if k == key {
            lemma_lookup_holder(after, k, last);
        } else if contents(before).dom().contains(k) {
            let at = choose|at: int| holds_at(before, k, at);
            lemma_lookup_holder(before, k, at);
            lemma_lookup_holder(after, k, at);
        } else if contents(after).dom().contains(k) {
            let at = choose|at: int| holds_at(after, k, at);
            assert(holds_at(before, k, at));
        }
    }
    assert(contents(after) =~= contents(before).insert(key, value));
}

/// What removing a key from the block that holds it does to a table in
/// which no key is held twice.
proof fn lemma_remove_contents(
    before: Seq<BlockView>,
    after: Seq<BlockView>,
    key: Seq<u8>,
    at: int,
)
    requires
        distinct_keys(before),
        after.len() == before.len(),
        holds_at(before, key, at),
        after[at].entries() == before[at].entries().remove(key),
        forall|i: int| 0 <= i < before.len() && i != at ==> after[i] == before[i],
    ensures
        distinct_keys(after),
        contents(after) == contents(before).remove(key),
{
    assert forall|k: Seq<u8>, i: int| #[trigger] holds_at(after, k, i) implies holds_at(
        before,
        k,
        i,
    ) && k != key && after[i].entries()[k] == before[i].entries()[k] by {
        if i != at && k == key {
            assert(holds_at(before, key, i));
        }
    }
    assert forall|k: Seq<u8>, i: int| #[trigger] holds_at(before, k, i) && k != key implies holds_at(after, k, i) by {}
    assert forall|k: Seq<u8>, i: int, j: int| #[trigger]
        holds_at(after, k, i) && #[trigger] holds_at(after, k, j) implies i == j by {
        assert(holds_at(before, k, i) && holds_at(before, k, j));
    }
    assert forall|k: Seq<u8>|
        (#[trigger] contents(after).dom().contains(k)) == contents(before).remove(
            key,
        ).dom().contains(k) && (contents(after).dom().contains(k) ==> contents(after)[k]
            == contents(before).remove(key)[k]) by {
        lemma_lookup_none(after, k);
        lemma_lookup_none(before, k);
        if contents(after).dom().contains(k) {
            let i = choose|i: int| holds_at(after, k, i);
            lemma_lookup_holder(before, k, i);
            lemma_lookup_holder(after, k, i);
        } else if contents(before).dom().contains(k) && k != key {
            let i = choose|i: int| holds_at(before, k, i);
            assert(holds_at(after, k, i));
        }
    }
    assert(contents(after) =~= contents(before).remove(key));
}

impl SSTable {
    /// The table is in order: each of its blocks is.
    pub open spec fn wf(&self) -> bool {
        blocks_wf(self@.blocks)
    }

    /// An empty table in the directory `dir`, created now.
    pub fn new(dir: &str) -> (table: Self)
        ensures
            table.wf(),
            table@.blocks == Seq::<BlockView>::empty(),
            table@.file_path == crate::api::joined(dir@, file_name_of(table@.created_at)),
    {
        Self::with_timestamp(dir, crate::helper::current_millis())
    }

    /// An empty table in the directory `dir`, created at `created_at`
    /// milliseconds since the epoch.
    pub fn with_timestamp(dir: &str, created_at: i64) -> (table: Self)
        ensures
            table.wf(),
            table@ == (SSTableView {
                blocks: Seq::empty(),
                created_at,
                file_path: crate::api::joined(dir@, file_name_of(created_at)),
            }),
    {
        let mut file_name = String::from_str("sstable_");
        let number = decimal_text(created_at);
        file_name.append(number.as_str());
        file_name.append(".dat");
        let table = SSTable {
            file_path: join_path(dir, file_name.as_str()),
            blocks: Vec::new(),
            created_at,
        };
        assert(table@.blocks == Seq::<BlockView>::empty());
        table
    }

    /// Appends the entry `(key, value)`: to the last block, or to a new block
    /// where there is none or the last one cannot take the entry. An entry
    /// that is too large for an empty block is not appended: `BlockFull` is
    /// returned, and the new block stays.
    pub fn set(&mut self, key: Vec<u8>, value: Vec<u8>) -> (result: Result<(), Error>)
        requires
            old(self).wf(),
        ensures
            final(self).wf(),
            final(self)@ == (SSTableView {
                blocks: blocks_with(old(self)@.blocks, key@, value@),
                ..old(self)@
            }),
            result == (if entry_size(key@, value@) > BLOCK_SIZE {
                Err::<(), Error>(Error::BlockFull)
            } else {
                Ok::<(), Error>(())
            }),
    {
        let fits: bool = key.len() <= BLOCK_SIZE && value.len() <= BLOCK_SIZE;
        let count: usize = self.blocks.len();
        assert(count > 0 ==> old(self)@.blocks.last() == self.blocks@[count - 1]@);
        let opens: bool = count == 0 || !fits || self.blocks[count - 1].is_full(
            4 + key.len() + value.len(),
        );
        if opens {
            let new_block = Block::new();
            self.blocks.push(new_block);
        }
        let ghost opened = self@.blocks;
        assert(opened == (if opens_block(old(self)@.blocks, key@, value@) {
            old(self)@.blocks.push(BlockView::empty(BLOCK_SIZE as nat))
        } else {
            old(self)@.blocks
        }));
        let last: usize = self.blocks.len() - 1;
        let result = self.blocks[last].set_entry(key.as_slice(), value.as_slice());
        proof {
            assert forall|i: int| 0 <= i < self@.blocks.len() implies (#[trigger] self@.blocks[i]).wf()
                && self@.blocks[i].capacity == BLOCK_SIZE by {
                if i < last {
                    assert(self@.blocks[i] == opened[i]);
                }
            }
            assert(self@.blocks == blocks_with(old(self)@.blocks, key@, value@));
        }
        match result {
            Ok(()) => Ok(()),
            Err(error) => Err(error),
        }
    }

    /// The value of `key` in the first block that holds it.
    pub fn get(&self, key: Vec<u8>) -> (value: Option<Vec<u8>>)
        requires
            self.wf(),
        ensures
            crate::memtable::found(value) == lookup(self@.blocks, key@),
    {
        let mut i: usize = 0;
        while i < self.blocks.len()
            invariant
                i <= self.blocks@.len(),
                self.wf(),
                first_holding(self@.blocks, key@, 0) == first_holding(self@.blocks, key@, i as int),
            decreases self.blocks@.len() - i,
        {
            assert(self@.blocks[i as int] == self.blocks@[i as int]@);
            match self.blocks[i].get_value(key.as_slice()) {
                Some(value) => {
                    return Some(value);
                },
                None => {},
            }
            i = i + 1;
        }
        None
    }

    /// Removes the entry of `key` from the last block that holds it, or
    /// returns `NotFound` where no block does.
    pub fn remove(&mut self, key: Vec<u8>) -> (result: Result<(), Error>)
        requires
            old(self).wf(),
        ensures
            final(self).wf(),
            final(self)@ == (SSTableView {
                blocks: blocks_without(old(self)@.blocks, key@),
                ..old(self)@
            }),
            result == (if last_holding(old(self)@.blocks, key@, old(self)@.blocks.len() as int)
                < 0 {
                Err::<(), Error>(Error::NotFound)
            } else {
                Ok::<(), Error>(())
            }),
    {
        let mut i: usize = self.blocks.len();
        while i > 0
            invariant
                i <= self.blocks@.len(),
                self.wf(),
                self@ == old(self)@,
                last_holding(self@.blocks, key@, self@.blocks.len() as int) == last_holding(
                    self@.blocks,
                    key@,
                    i as int,
                ),
            decreases i,
        {
            assert(self@.blocks[i - 1] == self.blocks@[i - 1]@);
            proof {
                crate::sst::sst_block::lemma_without(self@.blocks[i - 1], key@);
            }
            if self.blocks[i - 1].remove_entry(key.as_slice()) {
                proof {
                    assert forall|j: int| 0 <= j < self@.blocks.len() implies (
                    #[trigger] self@.blocks[j]).wf() && self@.blocks[j].capacity == BLOCK_SIZE by {
                        if j != i - 1 {
                            assert(self@.blocks[j] == old(self)@.blocks[j]);
                        }
                    }
                    assert(self@.blocks == blocks_without(old(self)@.blocks, key@));
                }
                return Ok(());
            }
            assert(self@ == old(self)@) by {
                assert(self@.blocks =~= old(self)@.blocks);
            }
            i = i - 1;
        }
        Err(Error::NotFound)
    }

    /// The blocks, oldest first.
    pub fn blocks(&self) -> (blocks: &Vec<Block>)
        ensures
            blocks@.len() == self@.blocks.len(),
            forall|i: int| 0 <= i < blocks@.len() ==> (#[trigger] blocks@[i])@ == self@.blocks[i],
    {
        &self.blocks
    }

    /// When the table was created, in milliseconds since the epoch.
    pub fn created_at(&self) -> (created_at: i64)
        ensures
            created_at == self@.created_at,
    {
        self.created_at
    }

    /// The path of the table's file.
    pub fn file_path(&self) -> (path: &str)
        ensures
            path@ == self@.file_path,
    {
        self.file_path.as_str()
    }
}

} // verus!
