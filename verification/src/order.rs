//! The order in which an archive lists its entries: by name, compared without
//! regard to case, byte by byte on the lowercase form.

use crate::text::{lowercase, lowercase_of};
use vstd::prelude::*;
use vstd::utf8::encode_utf8;

verus! {

/// `a` comes before `b` or equals it, comparing byte by byte; a proper prefix
/// comes first.
pub open spec fn lex_le(a: Seq<u8>, b: Seq<u8>) -> bool
    decreases a.len(),
{
    if a.len() == 0 {
        true
    } else if b.len() == 0 {
        false
    } else if a[0] != b[0] {
        a[0] < b[0]
    } else {
        lex_le(a.drop_first(), b.drop_first())
    }
}

/// The bytes by which a name is ordered: its lowercase form in UTF-8.
pub open spec fn sort_key(name: Seq<char>) -> Seq<u8> {
    encode_utf8(lowercase_of(name))
}

/// Name `a` does not come behind name `b`.
pub open spec fn name_le(a: Seq<char>, b: Seq<char>) -> bool {
    lex_le(sort_key(a), sort_key(b))
}

/// The positions of `order` with position `i` of `names` put in behind the
/// last name that does not come behind it.
pub open spec fn insert_index(order: Seq<int>, names: Seq<Seq<char>>, i: int) -> Seq<int>
    decreases order.len(),
{
    if order.len() == 0 {
        seq![i]
    } else if name_le(names[order.last()], names[i]) {
        order.push(i)
    } else {
        insert_index(order.drop_last(), names, i).push(order.last())
    }
}

/// The positions of `names` in sorted order. Names that compare equal keep the
/// order in which they stand.
pub open spec fn sort_order(names: Seq<Seq<char>>) -> Seq<int>
    decreases names.len(),
{
    if names.len() == 0 {
        Seq::empty()
    } else {
        insert_index(sort_order(names.drop_last()), names, names.len() - 1)
    }
}

/// `order` lists positions of `names` so that no name comes behind a later
/// one.
pub open spec fn ordered(order: Seq<int>, names: Seq<Seq<char>>) -> bool {
    forall|a: int, b: int|
        0 <= a < b < order.len() ==> name_le(
            names[#[trigger] order[a]],
            names[#[trigger] order[b]],
        )
}

/// `order` lists every position below `n` exactly once.
pub open spec fn permutes(order: Seq<int>, n: nat) -> bool {
    &&& order.len() == n
    &&& forall|k: int| 0 <= k < order.len() ==> 0 <= #[trigger] order[k] < n
    &&& forall|a: int, b: int| 0 <= a < b < order.len() ==> order[a] != order[b]
    &&& forall|i: int| 0 <= i < n ==> order.contains(i)
}

/// Of two byte strings one does not come behind the other.
pub proof fn lemma_lex_le_total(a: Seq<u8>, b: Seq<u8>)
    ensures
        lex_le(a, b) || lex_le(b, a),
    decreases a.len(),
{
    if a.len() > 0 && b.len() > 0 && a[0] == b[0] {
        lemma_lex_le_total(a.drop_first(), b.drop_first());
    }
}

/// The order of byte strings is transitive.
pub proof fn lemma_lex_le_transitive(a: Seq<u8>, b: Seq<u8>, c: Seq<u8>)
    requires
        lex_le(a, b),
        lex_le(b, c),
    ensures
        lex_le(a, c),
    decreases a.len(),
{
    if a.len() > 0 && b.len() > 0 && c.len() > 0 && a[0] == b[0] && b[0] == c[0] {
        lemma_lex_le_transitive(a.drop_first(), b.drop_first(), c.drop_first());
    }
}

/// Where position `j` of `order` is the place behind the last name that does
/// not come behind name `i`, inserting `i` puts it there.
pub proof fn lemma_insert_at(order: Seq<int>, names: Seq<Seq<char>>, i: int, j: int)
    requires
        0 <= j <= order.len(),
        forall|k: int| j <= k < order.len() ==> !name_le(names[#[trigger] order[k]], names[i]),
        j == 0 || name_le(names[order[j - 1]], names[i]),
    ensures
        insert_index(order, names, i) == order.insert(j, i),
    decreases order.len(),
{
    if order.len() == 0 {
        assert(order.insert(j, i) =~= seq![i]);
    } else if name_le(names[order.last()], names[i]) {
        if j < order.len() {
            assert(!name_le(names[order[order.len() - 1]], names[i]));
        }
        assert(order.insert(j, i) =~= order.push(i));
    } else {
        lemma_insert_at(order.drop_last(), names, i, j);
        assert(order.drop_last().insert(j, i).push(order.last()) =~= order.insert(j, i));
    }
}

/// Inserting a position keeps the others, adds that one, and keeps the order
/// sorted.
pub proof fn lemma_insert_index(order: Seq<int>, names: Seq<Seq<char>>, i: int)
    ensures
        insert_index(order, names, i).len() == order.len() + 1,
        forall|x: int|
            #[trigger] insert_index(order, names, i).contains(x) <==> (x == i || order.contains(
                x,
            )),
        order.no_duplicates() && !order.contains(i) ==> insert_index(
            order,
            names,
            i,
        ).no_duplicates(),
        ordered(order, names) ==> ordered(insert_index(order, names, i), names),
    decreases order.len(),
{
    let r = insert_index(order, names, i);
    if order.len() == 0 {
        assert(r[0] == i);
    } else if name_le(names[order.last()], names[i]) {
        assert(r[order.len() as int] == i);
        assert forall|x: int| #[trigger] r.contains(x) <==> (x == i || order.contains(x)) by {
            if order.contains(x) {
                let k = choose|k: int| 0 <= k < order.len() && order[k] == x;
                assert(r[k] == x);
            }
        }
        if ordered(order, names) {
            assert forall|a: int, b: int| 0 <= a < b < r.len() implies name_le(
                names[#[trigger] r[a]],
                names[#[trigger] r[b]],
            ) by {
                if b == order.len() {
                    if a < order.len() - 1 {
                        assert(name_le(names[order[a]], names[order[order.len() - 1]]));
                        lemma_lex_le_transitive(
                            sort_key(names[order[a]]),
                            sort_key(names[order.last()]),
                            sort_key(names[i]),
                        );
                    }
                } else {
                    assert(name_le(names[order[a]], names[order[b]]));
                }
            }
        }
    } else {
        let front = order.drop_last();
        let inner = insert_index(front, names, i);
        lemma_insert_index(front, names, i);
        assert(r[inner.len() as int] == order.last());
        assert forall|x: int| #[trigger] r.contains(x) <==> (x == i || order.contains(x)) by {
            if r.contains(x) {
                let k = choose|k: int| 0 <= k < r.len() && r[k] == x;
                if k < inner.len() {
                    assert(inner[k] == x);
                    assert(inner.contains(x));
                    if front.contains(x) {
                        let m = choose|m: int| 0 <= m < front.len() && front[m] == x;
                        assert(order[m] == x);
                    }
                } else {
                    assert(order[order.len() - 1] == x);
                }
            }
            if x == i || order.contains(x) {
                if x == i {
                    assert(inner.contains(x));
                    let k = choose|k: int| 0 <= k < inner.len() && inner[k] == x;
                    assert(r[k] == x);
                } else {
                    let m = choose|m: int| 0 <= m < order.len() && order[m] == x;
                    if m < front.len() {
                        assert(front[m] == x);
                        assert(inner.contains(x));
                        let k = choose|k: int| 0 <= k < inner.len() && inner[k] == x;
                        assert(r[k] == x);
                    }
                }
            }
        }
        if order.no_duplicates() && !order.contains(i) {
            assert(front.no_duplicates());
            assert(!front.contains(i)) by {
                if front.contains(i) {
                    let m = choose|m: int| 0 <= m < front.len() && front[m] == i;
                    assert(order[m] == i);
                }
            }
            assert(!inner.contains(order.last())) by {
                if front.contains(order.last()) {
                    let m = choose|m: int| 0 <= m < front.len() && front[m] == order.last();
                    assert(order[m] == order[order.len() - 1]);
                }
                assert(order[order.len() - 1] == order.last());
            }
            assert forall|a: int, b: int| 0 <= a < r.len() && 0 <= b < r.len() && a != b implies r[a]
                != r[b] by {
                if a < inner.len() && b < inner.len() {
                    assert(inner[a] != inner[b]);
                } else if a < inner.len() {
                    assert(inner.contains(r[a]));
                } else {
                    assert(inner.contains(r[b]));
                }
            }
        }
        if ordered(order, names) {
            assert(ordered(front, names)) by {
                assert forall|a: int, b: int| 0 <= a < b < front.len() implies name_le(
                    names[#[trigger] front[a]],
                    names[#[trigger] front[b]],
                ) by {
                    assert(name_le(names[order[a]], names[order[b]]));
                }
            }
            assert forall|a: int, b: int| 0 <= a < b < r.len() implies name_le(
                names[#[trigger] r[a]],
                names[#[trigger] r[b]],
            ) by {
                if b < inner.len() {
                    assert(name_le(names[inner[a]], names[inner[b]]));
                } else {
                    let x = inner[a];
                    assert(inner.contains(x));
                    if x == i {
                        lemma_lex_le_total(sort_key(names[order.last()]), sort_key(names[i]));
                    } else {
                        let m = choose|m: int| 0 <= m < front.len() && front[m] == x;
                        assert(name_le(names[order[m]], names[order[order.len() - 1]]));
                    }
                }
            }
        }
    }
}

/// The sorted order lists every position once, and no name in it comes behind
/// a later one.
pub proof fn lemma_sort_order(names: Seq<Seq<char>>)
    ensures
        permutes(sort_order(names), names.len()),
        ordered(sort_order(names), names),
    decreases names.len(),
{
    if names.len() > 0 {
        let front = names.drop_last();
        let last = names.len() - 1;
        let before = sort_order(front);
        lemma_sort_order(front);
        lemma_insert_index(before, names, last);
        let r = insert_index(before, names, last);
        assert(r == sort_order(names));
        assert(before.no_duplicates());
        assert(!before.contains(last)) by {
            if before.contains(last) {
                let k = choose|k: int| 0 <= k < before.len() && before[k] == last;
                assert(0 <= before[k] < front.len());
            }
        }
        assert(ordered(before, names)) by {
            assert forall|a: int, b: int| 0 <= a < b < before.len() implies name_le(
                names[#[trigger] before[a]],
                names[#[trigger] before[b]],
            ) by {
                assert(name_le(front[before[a]], front[before[b]]));
                assert(0 <= before[a] < front.len() && 0 <= before[b] < front.len());
            }
        }
        assert forall|k: int| 0 <= k < r.len() implies 0 <= #[trigger] r[k] < names.len() by {
            let x = r[k];
            assert(r.contains(x));
            assert(x == last || before.contains(x));
            if r[k] != last {
                let m = choose|m: int| 0 <= m < before.len() && before[m] == r[k];
                assert(0 <= before[m] < front.len());
            }
        }
        assert forall|i: int| 0 <= i < names.len() implies r.contains(i) by {
            if i != last {
                assert(before.contains(i));
            }
        }
    }
}

/// Compares two byte strings: whether `a` comes before `b` or equals it.
pub fn bytes_le(a: &[u8], b: &[u8]) -> (r: bool)
    ensures
        r == lex_le(a@, b@),
{
    let mut i: usize = 0;
    assert(a@.skip(0) =~= a@ && b@.skip(0) =~= b@);
    while i < a.len() && i < b.len() && a[i] == b[i]
        invariant
            i <= a@.len(),
            i <= b@.len(),
            lex_le(a@, b@) == lex_le(a@.skip(i as int), b@.skip(i as int)),
        decreases a@.len() - i,
    {
        assert(a@.skip(i as int).drop_first() =~= a@.skip(i + 1));
        assert(b@.skip(i as int).drop_first() =~= b@.skip(i + 1));
        i += 1;
    }
    if i >= a.len() {
        true
    } else if i >= b.len() {
        false
    } else {
        a[i] < b[i]
    }
}

/// The names of a list of named values.
pub open spec fn names_of<V>(list: Seq<(Seq<char>, V)>) -> Seq<Seq<char>> {
    list.map_values(|e: (Seq<char>, V)| e.0)
}

/// The entries of `list` in the order that `order` gives.
pub open spec fn arranged<V>(list: Seq<(Seq<char>, V)>, order: Seq<int>) -> Seq<(Seq<char>, V)> {
    Seq::new(order.len(), |k: int| list[order[k]])
}

/// The entries of `list` sorted by name.
pub open spec fn sorted_by_name<V>(list: Seq<(Seq<char>, V)>) -> Seq<(Seq<char>, V)> {
    arranged(list, sort_order(names_of(list)))
}

/// The positions of `order` as mathematical integers.
pub open spec fn positions(order: Seq<usize>) -> Seq<int> {
    order.map_values(|i: usize| i as int)
}

/// The positions of `names` in sorted order.
pub fn sorted_positions(names: &Vec<String>) -> (order: Vec<usize>)
    ensures
        positions(order@) == sort_order(names@.map_values(|n: String| n@)),
{
    let ghost texts = names@.map_values(|n: String| n@);
    let mut keys: Vec<String> = Vec::new();
    let mut i: usize = 0;
    while i < names.len()
        invariant
            i <= names@.len(),
            keys@.len() == i,
            texts == names@.map_values(|n: String| n@),
            forall|k: int| 0 <= k < i ==> (#[trigger] keys@[k])@ == lowercase_of(texts[k]),
        decreases names@.len() - i,
    {
        keys.push(lowercase(names[i].as_str()));
        i += 1;
    }
    let mut order: Vec<usize> = Vec::new();
    let mut n: usize = 0;
    assert(positions(order@) =~= sort_order(texts.take(0)));
    while n < names.len()
        invariant
            n <= names@.len(),
            keys@.len() == names@.len(),
            texts == names@.map_values(|n: String| n@),
            forall|k: int|
                0 <= k < keys@.len() ==> (#[trigger] keys@[k])@ == lowercase_of(texts[k]),
            order@.len() == n,
            forall|k: int| 0 <= k < order@.len() ==> #[trigger] order@[k] < n,
            positions(order@) == sort_order(texts.take(n as int)),
        decreases names@.len() - n,
    {
        let ghost before = positions(order@);
        let ghost front = texts.take(n + 1);
        let mut j: usize = order.len();
        while j > 0 && !bytes_le(keys[order[j - 1]].as_str().as_bytes(), keys[n].as_str().as_bytes())
            invariant
                j <= order@.len(),
                n < names@.len(),
                order@.len() == n,
                keys@.len() == names@.len(),
                before == positions(order@),
                front == texts.take(n + 1),
                texts == names@.map_values(|n: String| n@),
                forall|k: int| 0 <= k < order@.len() ==> #[trigger] order@[k] < n,
                forall|k: int|
                    0 <= k < keys@.len() ==> (#[trigger] keys@[k])@ == lowercase_of(texts[k]),
                forall|k: int|
                    j <= k < before.len() ==> !name_le(front[#[trigger] before[k]], front[n as int]),
            decreases j,
        {
            assert(before[j - 1] == order@[j - 1]);
            assert(front[before[j - 1]] == texts[order@[j - 1] as int]);
            j -= 1;
        }
        proof {
            if j > 0 {
                assert(before[j - 1] == order@[j - 1]);
                assert(front[before[j - 1]] == texts[order@[j - 1] as int]);
            }
            lemma_insert_at(before, front, n as int, j as int);
            assert(front.drop_last() =~= texts.take(n as int));
        }
        order.insert(j, n);
        assert(positions(order@) =~= before.insert(j as int, n as int));
        n += 1;
    }
    assert(texts.take(n as int) =~= texts);
    order
}

} // verus!
