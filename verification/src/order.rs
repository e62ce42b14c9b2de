//! The order of keys, and searching a sequence that is sorted by key.
//!
//! Keys are byte strings and are ordered lexicographically: the first byte
//! in which two keys differ decides, and a proper prefix comes first.

use vstd::prelude::*;

verus! {

/// How one key stands to another.
#[derive(Clone, Copy, Debug, PartialEq, Eq, Structural)]
pub enum Order {
    Less,
    Equal,
    Greater,
}

/// `a` and `b` have at least `n` bytes and agree in their first `n` bytes.
pub open spec fn agree_before(a: Seq<u8>, b: Seq<u8>, n: int) -> bool {
    &&& 0 <= n <= a.len()
    &&& n <= b.len()
    &&& forall|j: int| 0 <= j < n ==> a[j] == b[j]
}

/// `a` comes before `b` in lexicographic order.
pub open spec fn lex_lt(a: Seq<u8>, b: Seq<u8>) -> bool {
    exists|n: int| #[trigger]
        agree_before(a, b, n) && n < b.len() && (n == a.len() || a[n] < b[n])
}

/// No key comes before itself.
pub proof fn lemma_lex_irreflexive(a: Seq<u8>)
    ensures
        !lex_lt(a, a),
{
}

/// Of two keys at most one comes before the other.
pub proof fn lemma_lex_asymmetric(a: Seq<u8>, b: Seq<u8>)
    requires
        lex_lt(a, b),
    ensures
        !lex_lt(b, a),
        a != b,
{
    let n = choose|n: int| #[trigger]
        agree_before(a, b, n) && n < b.len() && (n == a.len() || a[n] < b[n]);
    assert forall|m: int| #[trigger]
        agree_before(b, a, m) && m < a.len() implies !(m == b.len() || b[m] < a[m]) by {
        if m < n {
            assert(a[m] == b[m]);
        } else if m > n {
            assert(b[n] == a[n]);
        }
    }
}

/// The order is transitive.
pub proof fn lemma_lex_transitive(a: Seq<u8>, b: Seq<u8>, c: Seq<u8>)
    requires
        lex_lt(a, b),
        lex_lt(b, c),
    ensures
        lex_lt(a, c),
{
    let n1 = choose|n: int| #[trigger]
        agree_before(a, b, n) && n < b.len() && (n == a.len() || a[n] < b[n]);
    let n2 = choose|n: int| #[trigger]
        agree_before(b, c, n) && n < c.len() && (n == b.len() || b[n] < c[n]);
    let n = if n1 <= n2 {
        n1
    } else {
        n2
    };
    assert(agree_before(a, c, n));
    if n1 < n2 {
        assert(b[n1] == c[n1]);
    } else if n2 < n1 {
        assert(a[n2] == b[n2]);
    }
}

/// Of two keys one comes before the other, or they are the same key.
pub proof fn lemma_lex_total(a: Seq<u8>, b: Seq<u8>)
    ensures
        lex_lt(a, b) || a == b || lex_lt(b, a),
{
    lemma_first_difference(a, b, 0);
}

/// From a common prefix of length `n` on, two keys differ somewhere or are
/// the same key.
proof fn lemma_first_difference(a: Seq<u8>, b: Seq<u8>, n: int)
    requires
        agree_before(a, b, n),
    ensures
        lex_lt(a, b) || a == b || lex_lt(b, a),
    decreases a.len() - n,
{
    if n == a.len() && n == b.len() {
        assert(a =~= b);
    } else if n == a.len() {
        assert(agree_before(a, b, n) && n < b.len());
    } else if n == b.len() {
        assert(agree_before(b, a, n) && n < a.len());
    } else if a[n] < b[n] {
        assert(agree_before(a, b, n) && n < b.len());
    } else if b[n] < a[n] {
        assert(agree_before(b, a, n) && n < a.len());
    } else {
        assert(agree_before(a, b, n + 1));
        lemma_first_difference(a, b, n + 1);
    }
}

/// Compares two keys.
pub fn compare_keys(a: &[u8], b: &[u8]) -> (order: Order)
    ensures
        match order {
            Order::Less => lex_lt(a@, b@),
            Order::Equal => a@ == b@,
            Order::Greater => lex_lt(b@, a@),
        },
{
    let mut i: usize = 0;
    while i < a.len() && i < b.len()
        invariant
            agree_before(a@, b@, i as int),
        decreases a@.len() - i,
    {
        if a[i] < b[i] {
            return Order::Less;
        }
        if a[i] > b[i] {
            assert(agree_before(b@, a@, i as int));
            return Order::Greater;
        }
        i = i + 1;
    }
    if a.len() < b.len() {
        Order::Less
    } else if a.len() > b.len() {
        assert(agree_before(b@, a@, i as int));
        Order::Greater
    } else {
        assert(a@ =~= b@);
        Order::Equal
    }
}

/// What is stored under a key.
pub trait Keyed {
    /// The key under which the item is stored.
    spec fn key_view(&self) -> Seq<u8>;

    /// The key under which the item is stored.
    fn key_bytes(&self) -> (key: &[u8])
        ensures
            key@ == self.key_view(),
    ;
}

/// The keys of `items`, in the order of `items`.
pub open spec fn keys_of<T: Keyed>(items: Seq<T>) -> Seq<Seq<u8>> {
    Seq::new(items.len(), |i: int| items[i].key_view())
}

/// Each key comes before the keys behind it: the keys are in ascending order
/// and none occurs twice.
pub open spec fn increasing(keys: Seq<Seq<u8>>) -> bool {
    forall|i: int, j: int| 0 <= i < j < keys.len() ==> lex_lt(#[trigger] keys[i], #[trigger] keys[j])
}

/// The first `at` keys come before `key` and `key` comes before the others.
pub open spec fn splits_at(keys: Seq<Seq<u8>>, key: Seq<u8>, at: int) -> bool {
    &&& 0 <= at <= keys.len()
    &&& forall|i: int| 0 <= i < at ==> lex_lt(#[trigger] keys[i], key)
    &&& forall|i: int| at <= i < keys.len() ==> lex_lt(key, #[trigger] keys[i])
}

/// `key` is not among `keys`.
pub open spec fn absent(keys: Seq<Seq<u8>>, key: Seq<u8>) -> bool {
    forall|i: int| 0 <= i < keys.len() ==> #[trigger] keys[i] != key
}

/// In ascending keys a key occurs at one place only.
pub proof fn lemma_increasing_distinct(keys: Seq<Seq<u8>>, i: int, j: int)
    requires
        increasing(keys),
        0 <= i < keys.len(),
        0 <= j < keys.len(),
        keys[i] == keys[j],
    ensures
        i == j,
{
    if i < j {
        lemma_lex_asymmetric(keys[i], keys[j]);
    } else if j < i {
        lemma_lex_asymmetric(keys[j], keys[i]);
    }
}

/// A key that splits ascending keys is not among them.
pub proof fn lemma_split_absent(keys: Seq<Seq<u8>>, key: Seq<u8>, at: int)
    requires
        splits_at(keys, key, at),
    ensures
        absent(keys, key),
{
    assert forall|i: int| 0 <= i < keys.len() implies #[trigger] keys[i] != key by {
        if i < at {
            lemma_lex_asymmetric(keys[i], key);
        } else {
            lemma_lex_asymmetric(key, keys[i]);
        }
    }
}

/// A key splits ascending keys at one place only.
pub proof fn lemma_split_unique(keys: Seq<Seq<u8>>, key: Seq<u8>, first: int, second: int)
    requires
        splits_at(keys, key, first),
        splits_at(keys, key, second),
    ensures
        first == second,
{
    if first < second {
        lemma_lex_asymmetric(keys[first], key);
    } else if second < first {
        lemma_lex_asymmetric(keys[second], key);
    }
}

/// A key that is not among ascending keys splits them somewhere.
pub proof fn lemma_split_exists(keys: Seq<Seq<u8>>, key: Seq<u8>) -> (at: int)
    requires
        increasing(keys),
        absent(keys, key),
    ensures
        splits_at(keys, key, at),
    decreases keys.len(),
{
    if keys.len() == 0 {
        0
    } else {
        let last = keys.len() - 1;
        lemma_lex_total(keys[last], key);
        assert(keys[last] != key);
        if lex_lt(keys[last], key) {
            assert forall|i: int| 0 <= i < keys.len() implies lex_lt(
                #[trigger] keys[i],
                key,
            ) by {
                if i < last {
                    lemma_lex_transitive(keys[i], keys[last], key);
                }
            }
            keys.len() as int
        } else {
            let front = keys.drop_last();
            assert(increasing(front)) by {
                assert forall|i: int, j: int| 0 <= i < j < front.len() implies lex_lt(
                    #[trigger] front[i],
                    #[trigger] front[j],
                ) by {
                    assert(front[i] == keys[i] && front[j] == keys[j]);
                }
            }
            assert(absent(front, key)) by {
                assert forall|i: int| 0 <= i < front.len() implies #[trigger] front[i] != key by {
                    assert(front[i] == keys[i]);
                }
            }
            let at = lemma_split_exists(front, key);
            assert forall|i: int| 0 <= i < at implies lex_lt(
                #[trigger] keys[i],
                key,
            ) by {
                assert(front[i] == keys[i]);
            }
            assert forall|i: int| at <= i < keys.len() implies lex_lt(
                key,
                #[trigger] keys[i],
            ) by {
                if i < last {
                    assert(front[i] == keys[i]);
                }
            }
            at
        }
    }
}

/// Putting a key where it splits ascending keys keeps them ascending.
pub proof fn lemma_insert_increasing(keys: Seq<Seq<u8>>, key: Seq<u8>, at: int)
    requires
        increasing(keys),
        splits_at(keys, key, at),
    ensures
        increasing(keys.insert(at, key)),
{
    let after = keys.insert(at, key);
    assert forall|i: int, j: int| 0 <= i < j < after.len() implies lex_lt(
        #[trigger] after[i],
        #[trigger] after[j],
    ) by {
        if j < at {
            assert(after[i] == keys[i] && after[j] == keys[j]);
        } else if j == at {
            assert(after[i] == keys[i]);
        } else if i < at {
            assert(after[i] == keys[i] && after[j] == keys[j - 1]);
            if i < j - 1 {
            } else {
                lemma_lex_transitive(keys[i], key, keys[j - 1]);
            }
        } else if i == at {
            assert(after[j] == keys[j - 1]);
        } else {
            assert(after[i] == keys[i - 1] && after[j] == keys[j - 1]);
        }
    }
}

/// Taking a key out of ascending keys keeps them ascending.
pub proof fn lemma_remove_increasing(keys: Seq<Seq<u8>>, at: int)
    requires
        increasing(keys),
        0 <= at < keys.len(),
    ensures
        increasing(keys.remove(at)),
{
    let after = keys.remove(at);
    assert forall|i: int, j: int| 0 <= i < j < after.len() implies lex_lt(
        #[trigger] after[i],
        #[trigger] after[j],
    ) by {
        let from_i = if i < at {
            i
        } else {
            i + 1
        };
        let from_j = if j < at {
            j
        } else {
            j + 1
        };
        assert(after[i] == keys[from_i] && after[j] == keys[from_j]);
    }
}

/// Looks `key` up in items that are sorted by key.
///
/// `Ok(i)` says that item `i` is stored under `key`. `Err(at)` says that no
/// item is, and that `at` is where an item under `key` would have to go.
pub fn search<T: Keyed>(items: &Vec<T>, key: &[u8]) -> (found: Result<usize, usize>)
    requires
        increasing(keys_of(items@)),
    ensures
        match found {
            Ok(i) => i < items@.len() && items@[i as int].key_view() == key@,
            Err(at) => splits_at(keys_of(items@), key@, at as int),
        },
{
    let ghost keys = keys_of(items@);
    let mut low: usize = 0;
    let mut high: usize = items.len();
    while low < high
        invariant
            keys == keys_of(items@),
            increasing(keys),
            low <= high <= items@.len(),
            forall|i: int| 0 <= i < low ==> lex_lt(#[trigger] keys[i], key@),
            forall|i: int| high <= i < keys.len() ==> lex_lt(key@, #[trigger] keys[i]),
        decreases high - low,
    {
        let middle: usize = low + (high - low) / 2;
        assert(keys[middle as int] == items@[middle as int].key_view());
        match compare_keys(items[middle].key_bytes(), key) {
            Order::Equal => {
                return Ok(middle);
            },
            Order::Less => {
                assert forall|i: int| 0 <= i < middle + 1 implies lex_lt(
                    #[trigger] keys[i],
                    key@,
                ) by {
                    if i < middle {
                        lemma_lex_transitive(keys[i], keys[middle as int], key@);
                    }
                }
                low = middle + 1;
            },
            Order::Greater => {
                assert forall|i: int| middle <= i < keys.len() implies lex_lt(
                    key@,
                    #[trigger] keys[i],
                ) by {
                    if middle < i {
                        lemma_lex_transitive(key@, keys[middle as int], keys[i]);
                    }
                }
                high = middle;
            },
        }
    }
    Err(low)
}

/// The keys of `items`, where `key_of` gives an item's key.
pub open spec fn keys_by<V>(items: Seq<V>, key_of: spec_fn(V) -> Seq<u8>) -> Seq<Seq<u8>> {
    Seq::new(items.len(), |i: int| key_of(items[i]))
}

/// `items` holds an item under `key`.
pub open spec fn holds<V>(items: Seq<V>, key_of: spec_fn(V) -> Seq<u8>, key: Seq<u8>) -> bool {
    exists|i: int| 0 <= i < items.len() && key_of(#[trigger] items[i]) == key
}

/// A place at which `items` holds an item under `key`.
pub open spec fn place_of<V>(items: Seq<V>, key_of: spec_fn(V) -> Seq<u8>, key: Seq<u8>) -> int {
    choose|i: int| 0 <= i < items.len() && key_of(#[trigger] items[i]) == key
}

/// The map from each key of `items` to the item stored under it.
pub open spec fn keyed_map<V>(items: Seq<V>, key_of: spec_fn(V) -> Seq<u8>) -> Map<Seq<u8>, V> {
    Map::new(
        |key: Seq<u8>| holds(items, key_of, key),
        |key: Seq<u8>| items[place_of(items, key_of, key)],
    )
}

/// Where the keys ascend, the map takes the key of item `at` to that item.
pub proof fn lemma_map_at<V>(items: Seq<V>, key_of: spec_fn(V) -> Seq<u8>, at: int)
    requires
        increasing(keys_by(items, key_of)),
        0 <= at < items.len(),
    ensures
        keyed_map(items, key_of).dom().contains(key_of(items[at])),
        keyed_map(items, key_of)[key_of(items[at])] == items[at],
{
    let key = key_of(items[at]);
    let keys = keys_by(items, key_of);
    assert(holds(items, key_of, key));
    let place = place_of(items, key_of, key);
    assert(keys[place] == keys[at]);
    lemma_increasing_distinct(keys, place, at);
}

/// A key that is not among the keys of `items` is not in the map.
pub proof fn lemma_map_absent<V>(items: Seq<V>, key_of: spec_fn(V) -> Seq<u8>, key: Seq<u8>)
    requires
        absent(keys_by(items, key_of), key),
    ensures
        !keyed_map(items, key_of).dom().contains(key),
{
    let keys = keys_by(items, key_of);
    if holds(items, key_of, key) {
        let place = place_of(items, key_of, key);
        assert(keys[place] == key);
    }
}

/// Putting an item where its key splits the ascending keys adds it to the
/// map and keeps the keys ascending.
pub proof fn lemma_map_insert<V>(items: Seq<V>, key_of: spec_fn(V) -> Seq<u8>, at: int, item: V)
    requires
        increasing(keys_by(items, key_of)),
        splits_at(keys_by(items, key_of), key_of(item), at),
    ensures
        increasing(keys_by(items.insert(at, item), key_of)),
        keyed_map(items.insert(at, item), key_of) == keyed_map(items, key_of).insert(
            key_of(item),
            item,
        ),
{
    let key = key_of(item);
    let keys = keys_by(items, key_of);
    let after = items.insert(at, item);
    assert(keys_by(after, key_of) == keys.insert(at, key));
    lemma_insert_increasing(keys, key, at);
    lemma_split_absent(keys, key, at);
    let before_map = keyed_map(items, key_of);
    let after_map = keyed_map(after, key_of);
    assert forall|k: Seq<u8>| #[trigger]
        after_map.dom().contains(k) == before_map.insert(key, item).dom().contains(k) by {
        if holds(after, key_of, k) && k != key {
            let j = place_of(after, key_of, k);
            let i = if j < at {
                j
            } else {
                j - 1
            };
            assert(key_of(items[i]) == k);
        }
        if holds(items, key_of, k) {
            let i = place_of(items, key_of, k);
            let j = if i < at {
                i
            } else {
                i + 1
            };
            assert(key_of(after[j]) == k);
        }
        if k == key {
            assert(key_of(after[at]) == k);
        }
    }
    assert forall|k: Seq<u8>| #[trigger] after_map.dom().contains(k) implies after_map[k]
        == before_map.insert(key, item)[k] by {
        if k == key {
            lemma_map_at(after, key_of, at);
        } else {
            let i = place_of(items, key_of, k);
            let j = if i < at {
                i
            } else {
                i + 1
            };
            assert(after[j] == items[i]);
            lemma_map_at(items, key_of, i);
            lemma_map_at(after, key_of, j);
        }
    }
    assert(after_map =~= before_map.insert(key, item));
}

/// Replacing an item by one with the same key replaces it in the map and
/// keeps the keys as they are.
pub proof fn lemma_map_update<V>(items: Seq<V>, key_of: spec_fn(V) -> Seq<u8>, at: int, item: V)
    requires
        increasing(keys_by(items, key_of)),
        0 <= at < items.len(),
        key_of(items[at]) == key_of(item),
    ensures
        keys_by(items.update(at, item), key_of) == keys_by(items, key_of),
        keyed_map(items.update(at, item), key_of) == keyed_map(items, key_of).insert(
            key_of(item),
            item,
        ),
{
    let key = key_of(item);
    let keys = keys_by(items, key_of);
    let after = items.update(at, item);
    assert(keys_by(after, key_of) == keys);
    let before_map = keyed_map(items, key_of);
    let after_map = keyed_map(after, key_of);
    assert forall|k: Seq<u8>| #[trigger]
        after_map.dom().contains(k) == before_map.insert(key, item).dom().contains(k) by {
        if holds(after, key_of, k) {
            let j = place_of(after, key_of, k);
            assert(key_of(items[j]) == k);
        }
        if holds(items, key_of, k) {
            let i = place_of(items, key_of, k);
            assert(key_of(after[i]) == k);
        }
        if k == key {
            assert(key_of(after[at]) == k);
        }
    }
    assert forall|k: Seq<u8>| #[trigger] after_map.dom().contains(k) implies after_map[k]
        == before_map.insert(key, item)[k] by {
        if k == key {
            lemma_map_at(after, key_of, at);
        } else {
            let i = place_of(items, key_of, k);
            assert(keys[i] == k);
            assert(after[i] == items[i]);
            lemma_map_at(items, key_of, i);
            lemma_map_at(after, key_of, i);
        }
    }
    assert(after_map =~= before_map.insert(key, item));
}

/// Taking an item out takes its key out of the map and keeps the keys
/// ascending.
pub proof fn lemma_map_remove<V>(items: Seq<V>, key_of: spec_fn(V) -> Seq<u8>, at: int)
    requires
        increasing(keys_by(items, key_of)),
        0 <= at < items.len(),
    ensures
        increasing(keys_by(items.remove(at), key_of)),
        keyed_map(items.remove(at), key_of) == keyed_map(items, key_of).remove(
            key_of(items[at]),
        ),
{
    let key = key_of(items[at]);
    let keys = keys_by(items, key_of);
    let after = items.remove(at);
    assert(keys_by(after, key_of) == keys.remove(at));
    lemma_remove_increasing(keys, at);
    let before_map = keyed_map(items, key_of);
    let after_map = keyed_map(after, key_of);
    assert forall|k: Seq<u8>| #[trigger]
        after_map.dom().contains(k) == before_map.remove(key).dom().contains(k) by {
        if holds(after, key_of, k) {
            let j = place_of(after, key_of, k);
            let i = if j < at {
                j
            } else {
                j + 1
            };
            assert(key_of(items[i]) == k);
            assert(keys[i] == k);
            if k == key {
                lemma_increasing_distinct(keys, i, at);
            }
        }
        if holds(items, key_of, k) && k != key {
            let i = place_of(items, key_of, k);
            let j = if i < at {
                i
            } else {
                i - 1
            };
            assert(key_of(after[j]) == k);
        }
    }
    assert forall|k: Seq<u8>| #[trigger] after_map.dom().contains(k) implies after_map[k]
        == before_map.remove(key)[k] by {
        let i = place_of(items, key_of, k);
        let j = if i < at {
            i
        } else {
            i - 1
        };
        assert(keys[i] == k);
        if i == at {
        } else {
            assert(after[j] == items[i]);
            lemma_map_at(items, key_of, i);
            lemma_map_at(after, key_of, j);
        }
    }
    assert(after_map =~= before_map.remove(key));
}

} // verus!
