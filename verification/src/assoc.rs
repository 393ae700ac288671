//! Association lists keyed by text: the order of insertion is kept, and a key
//! that is put again keeps its place and takes the new value.

use vstd::prelude::*;

verus! {

/// No key occurs twice in `list`.
pub open spec fn keys_unique<V>(list: Seq<(Seq<char>, V)>) -> bool {
    forall|i: int, j: int| 0 <= i < j < list.len() ==> list[i].0 != list[j].0
}

/// Position `i` is the first of `list` that holds `key`.
pub open spec fn first_at<V>(list: Seq<(Seq<char>, V)>, key: Seq<char>, i: int) -> bool {
    &&& 0 <= i < list.len()
    &&& list[i].0 == key
    &&& forall|j: int| 0 <= j < i ==> list[j].0 != key
}

/// Some entry of `list` holds `key`.
pub open spec fn has_key<V>(list: Seq<(Seq<char>, V)>, key: Seq<char>) -> bool {
    exists|i: int| 0 <= i < list.len() && list[i].0 == key
}

/// The first position of `list` that holds `key`, where there is one.
pub open spec fn index_of<V>(list: Seq<(Seq<char>, V)>, key: Seq<char>) -> int {
    choose|i: int| first_at(list, key, i)
}

/// The value that `list` holds under `key`.
pub open spec fn get<V>(list: Seq<(Seq<char>, V)>, key: Seq<char>) -> Option<V> {
    if has_key(list, key) {
        Some(list[index_of(list, key)].1)
    } else {
        None
    }
}

/// `list` with `value` under `key`: in the place of the first entry that holds
/// the key, or at the end where none does.
pub open spec fn put<V>(list: Seq<(Seq<char>, V)>, key: Seq<char>, value: V) -> Seq<
    (Seq<char>, V),
> {
    if has_key(list, key) {
        list.update(index_of(list, key), (key, value))
    } else {
        list.push((key, value))
    }
}

/// The list that putting each entry of `items` in turn builds from nothing.
pub open spec fn collect<V>(items: Seq<(Seq<char>, V)>) -> Seq<(Seq<char>, V)>
    decreases items.len(),
{
    if items.len() == 0 {
        Seq::empty()
    } else {
        put(collect(items.drop_last()), items.last().0, items.last().1)
    }
}

/// `list` with each entry of `items` put in turn.
pub open spec fn put_all<V>(list: Seq<(Seq<char>, V)>, items: Seq<(Seq<char>, V)>) -> Seq<
    (Seq<char>, V),
>
    decreases items.len(),
{
    if items.len() == 0 {
        list
    } else {
        put(put_all(list, items.drop_last()), items.last().0, items.last().1)
    }
}

/// The entries of `list` whose key is not `key`, in their order.
pub open spec fn without_key<V>(list: Seq<(Seq<char>, V)>, key: Seq<char>) -> Seq<(Seq<char>, V)>
    decreases list.len(),
{
    if list.len() == 0 {
        Seq::empty()
    } else if list.last().0 == key {
        without_key(list.drop_last(), key)
    } else {
        without_key(list.drop_last(), key).push(list.last())
    }
}

/// The mapping from keys to values that `list` stands for.
pub open spec fn as_map<V>(list: Seq<(Seq<char>, V)>) -> Map<Seq<char>, V> {
    Map::new(|k: Seq<char>| has_key(list, k), |k: Seq<char>| list[index_of(list, k)].1)
}

/// A position that is the first to hold a key is the one that `index_of`
/// names.
pub proof fn lemma_index_of<V>(list: Seq<(Seq<char>, V)>, key: Seq<char>, i: int)
    requires
        first_at(list, key, i),
    ensures
        has_key(list, key),
        index_of(list, key) == i,
{
    let c = index_of(list, key);
    assert(first_at(list, key, c));
    if c < i {
        assert(list[c].0 != key);
    }
    if i < c {
        assert(list[i].0 != key);
    }
}

/// A key that some entry holds has a first position.
pub proof fn lemma_has_first<V>(list: Seq<(Seq<char>, V)>, key: Seq<char>)
    requires
        has_key(list, key),
    ensures
        first_at(list, key, index_of(list, key)),
{
    let w = choose|i: int| 0 <= i < list.len() && list[i].0 == key;
    lemma_first_before(list, key, w);
}

proof fn lemma_first_before<V>(list: Seq<(Seq<char>, V)>, key: Seq<char>, w: int)
    requires
        0 <= w < list.len(),
        list[w].0 == key,
    ensures
        exists|i: int| first_at(list, key, i),
    decreases w,
{
    if exists|j: int| 0 <= j < w && list[j].0 == key {
        let j = choose|j: int| 0 <= j < w && list[j].0 == key;
        lemma_first_before(list, key, j);
    } else {
        assert(first_at(list, key, w));
    }
}

/// Where no key occurs twice, every position is the first to hold its key.
pub proof fn lemma_unique_index<V>(list: Seq<(Seq<char>, V)>, i: int)
    requires
        keys_unique(list),
        0 <= i < list.len(),
    ensures
        has_key(list, list[i].0),
        index_of(list, list[i].0) == i,
        get(list, list[i].0) == Some(list[i].1),
{
    assert(first_at(list, list[i].0, i));
    lemma_index_of(list, list[i].0, i);
}

/// Putting a value keeps the keys unique, and changes the mapping at that key
/// only.
pub proof fn lemma_put<V>(list: Seq<(Seq<char>, V)>, key: Seq<char>, value: V)
    requires
        keys_unique(list),
    ensures
        keys_unique(put(list, key, value)),
        as_map(put(list, key, value)) == as_map(list).insert(key, value),
{
    let after = put(list, key, value);
    if has_key(list, key) {
        lemma_has_first(list, key);
    }
    assert(keys_unique(after));
    assert forall|k: Seq<char>| has_key(after, k) <==> (k == key || has_key(list, k)) by {
        if has_key(after, k) {
            let i = choose|i: int| 0 <= i < after.len() && after[i].0 == k;
            if k != key {
                assert(list[i].0 == k);
            }
        }
        if k == key {
            if has_key(list, key) {
                assert(after[index_of(list, key)].0 == key);
            } else {
                assert(after[list.len() as int].0 == key);
            }
        } else if has_key(list, k) {
            let i = choose|i: int| 0 <= i < list.len() && list[i].0 == k;
            assert(after[i].0 == k);
        }
    }
    assert forall|k: Seq<char>| has_key(after, k) implies #[trigger] as_map(after)[k] == as_map(
        list,
    ).insert(key, value)[k] by {
        lemma_has_first(after, k);
        let i = index_of(after, k);
        if k == key {
            assert(after[i].1 == value);
        } else {
            assert(list[i].0 == k);
            lemma_unique_index(list, i);
        }
    }
    assert(as_map(after) =~= as_map(list).insert(key, value));
}

/// A collected list holds no key twice.
pub proof fn lemma_collect_unique<V>(items: Seq<(Seq<char>, V)>)
    ensures
        keys_unique(collect(items)),
    decreases items.len(),
{
    if items.len() > 0 {
        lemma_collect_unique(items.drop_last());
        lemma_put(collect(items.drop_last()), items.last().0, items.last().1);
    }
}

/// A list that holds no key twice is what collecting its entries builds.
pub proof fn lemma_collect_of_unique<V>(list: Seq<(Seq<char>, V)>)
    requires
        keys_unique(list),
    ensures
        collect(list) == list,
    decreases list.len(),
{
    if list.len() > 0 {
        let front = list.drop_last();
        lemma_collect_of_unique(front);
        assert(!has_key(front, list.last().0)) by {
            if has_key(front, list.last().0) {
                let i = choose|i: int| 0 <= i < front.len() && front[i].0 == list.last().0;
                assert(list[i].0 == list[list.len() - 1].0);
            }
        }
        assert(front.push(list.last()) =~= list);
    } else {
        assert(list =~= Seq::empty());
    }
}

/// Two lists without repeated keys that hold the same entries stand for the
/// same mapping.
pub proof fn lemma_same_entries<V>(a: Seq<(Seq<char>, V)>, b: Seq<(Seq<char>, V)>)
    requires
        keys_unique(a),
        keys_unique(b),
        forall|e: (Seq<char>, V)| a.contains(e) <==> b.contains(e),
    ensures
        as_map(a) == as_map(b),
{
    assert forall|k: Seq<char>| has_key(a, k) implies has_key(b, k) && as_map(a)[k] == as_map(
        b,
    )[k] by {
        lemma_has_first(a, k);
        let i = index_of(a, k);
        assert(a.contains(a[i]));
        let j = choose|j: int| 0 <= j < b.len() && b[j] == a[i];
        lemma_unique_index(b, j);
    }
    assert forall|k: Seq<char>| has_key(b, k) implies has_key(a, k) by {
        lemma_has_first(b, k);
        let i = index_of(b, k);
        assert(b.contains(b[i]));
        let j = choose|j: int| 0 <= j < a.len() && a[j] == b[i];
        lemma_unique_index(a, j);
    }
    assert(as_map(a) =~= as_map(b));
}

/// Leaving a key out keeps the other entries, and keeps the keys unique.
pub proof fn lemma_without_key<V>(list: Seq<(Seq<char>, V)>, key: Seq<char>)
    ensures
        forall|e: (Seq<char>, V)|
            #[trigger] without_key(list, key).contains(e) <==> (list.contains(e) && e.0 != key),
        keys_unique(list) ==> keys_unique(without_key(list, key)),
    decreases list.len(),
{
    let r = without_key(list, key);
    if list.len() > 0 {
        let front = list.drop_last();
        let inner = without_key(front, key);
        lemma_without_key(front, key);
        assert forall|e: (Seq<char>, V)| #[trigger] r.contains(e) <==> (list.contains(e) && e.0
            != key) by {
            if r.contains(e) {
                let i = choose|i: int| 0 <= i < r.len() && r[i] == e;
                if i < inner.len() {
                    assert(inner[i] == e);
                    assert(inner.contains(e));
                    let j = choose|j: int| 0 <= j < front.len() && front[j] == e;
                    assert(list[j] == e);
                } else {
                    assert(list[list.len() - 1] == e);
                }
            }
            if list.contains(e) && e.0 != key {
                let j = choose|j: int| 0 <= j < list.len() && list[j] == e;
                if j < front.len() {
                    assert(front[j] == e);
                    assert(inner.contains(e));
                    let i = choose|i: int| 0 <= i < inner.len() && inner[i] == e;
                    assert(r[i] == e);
                } else {
                    assert(r[inner.len() as int] == e);
                }
            }
        }
        if keys_unique(list) {
            assert(keys_unique(front));
            if list.last().0 != key {
                assert forall|i: int, j: int| 0 <= i < j < r.len() implies r[i].0 != r[j].0 by {
                    if j == inner.len() {
                        assert(inner.contains(inner[i]));
                        let m = choose|m: int| 0 <= m < front.len() && front[m] == inner[i];
                        assert(list[m].0 != list[list.len() - 1].0);
                    }
                }
            }
        }
    }
}

/// The first position of `list` whose key is `key`.
pub fn position<V>(list: &Vec<(String, V)>, key: &String) -> (r: Option<usize>)
    ensures
        match r {
            Some(i) => i < list@.len() && list@[i as int].0@ == key@ && forall|j: int|
                0 <= j < i ==> list@[j].0@ != key@,
            None => forall|j: int| 0 <= j < list@.len() ==> list@[j].0@ != key@,
        },
{
    let mut i: usize = 0;
    while i < list.len()
        invariant
            i <= list@.len(),
            forall|j: int| 0 <= j < i ==> list@[j].0@ != key@,
        decreases list@.len() - i,
    {
        if list[i].0 == *key {
            return Some(i);
        }
        i += 1;
    }
    None
}

} // verus!
