//! The order in which records are shown: by device identifier, compared as
//! text, character by character; records with the same identifier keep the
//! order in which they were given.

use vstd::prelude::*;

verus! {

/// Whether `a` comes before `b` as text: at the first place where they
/// differ `a` has the smaller character, or `a` ends there and `b` goes on.
pub open spec fn lex_less(a: Seq<char>, b: Seq<char>) -> bool
    decreases a.len(),
{
    if b.len() == 0 {
        false
    } else if a.len() == 0 {
        true
    } else if a.first() != b.first() {
        (a.first() as u32) < (b.first() as u32)
    } else {
        lex_less(a.drop_first(), b.drop_first())
    }
}

/// Whether the item at position `i` is shown before the item at position
/// `j`: its key comes first as text, or the keys are the same and `i` is the
/// earlier position.
pub open spec fn precedes(keys: Seq<Seq<char>>, i: int, j: int) -> bool {
    lex_less(keys[i], keys[j]) || (keys[i] == keys[j] && i < j)
}

/// Whether `order` lists the positions of `keys` in the order in which the
/// items are shown: every position once, each before all that it precedes.
pub open spec fn is_stable_order(order: Seq<int>, keys: Seq<Seq<char>>) -> bool {
    &&& order.len() == keys.len()
    &&& forall|k: int| 0 <= k < order.len() ==> 0 <= #[trigger] order[k] < keys.len()
    &&& forall|r: int| 0 <= r < keys.len() ==> #[trigger] order.contains(r)
    &&& forall|a: int, b: int|
        0 <= a < b < order.len() ==> precedes(keys, #[trigger] order[a], #[trigger] order[b])
}

/// The positions of `keys` in the order in which the items are shown.
pub open spec fn stable_order(keys: Seq<Seq<char>>) -> Seq<int> {
    choose|order: Seq<int>| is_stable_order(order, keys)
}

/// The keys as texts.
pub open spec fn texts_of(keys: Seq<Vec<char>>) -> Seq<Seq<char>> {
    Seq::new(keys.len(), |i: int| keys[i]@)
}

/// Positions as mathematical integers.
pub open spec fn positions(order: Seq<usize>) -> Seq<int> {
    order.map_values(|i: usize| i as int)
}

/// Different characters have different code points.
proof fn lemma_code_points_differ(x: char, y: char)
    requires
        x != y,
    ensures
        x as u32 != y as u32,
{
}

/// No text comes before itself.
pub proof fn lemma_lex_less_irreflexive(a: Seq<char>)
    ensures
        !lex_less(a, a),
    decreases a.len(),
{
    if a.len() > 0 {
        lemma_lex_less_irreflexive(a.drop_first());
    }
}

/// Of two texts at most one comes before the other.
pub proof fn lemma_lex_less_asymmetric(a: Seq<char>, b: Seq<char>)
    ensures
        !(lex_less(a, b) && lex_less(b, a)),
    decreases a.len(),
{
    if a.len() > 0 && b.len() > 0 && a.first() == b.first() {
        lemma_lex_less_asymmetric(a.drop_first(), b.drop_first());
    }
}

/// Of two different texts one comes before the other.
pub proof fn lemma_lex_less_total(a: Seq<char>, b: Seq<char>)
    ensures
        a == b || lex_less(a, b) || lex_less(b, a),
    decreases a.len(),
{
    if a.len() > 0 && b.len() > 0 && a.first() == b.first() {
        lemma_lex_less_total(a.drop_first(), b.drop_first());
        if a.drop_first() == b.drop_first() {
            assert(a =~= seq![a.first()] + a.drop_first());
            assert(b =~= seq![b.first()] + b.drop_first());
        }
    } else if a.len() == 0 && b.len() == 0 {
        assert(a =~= b);
    } else if a.len() > 0 && b.len() > 0 {
        lemma_code_points_differ(a.first(), b.first());
    }
}

/// What comes before a text that comes before a third comes before the
/// third.
pub proof fn lemma_lex_less_transitive(a: Seq<char>, b: Seq<char>, c: Seq<char>)
    requires
        lex_less(a, b),
        lex_less(b, c),
    ensures
        lex_less(a, c),
    decreases a.len(),
{
    if a.len() > 0 && a.first() == b.first() && b.first() == c.first() {
        lemma_lex_less_transitive(a.drop_first(), b.drop_first(), c.drop_first());
    }
}

/// Two orders of the same keys agree at every place.
proof fn lemma_stable_order_agrees(keys: Seq<Seq<char>>, a: Seq<int>, b: Seq<int>, i: int)
    requires
        is_stable_order(a, keys),
        is_stable_order(b, keys),
        0 <= i < a.len(),
    ensures
        a[i] == b[i],
    decreases i,
{
    assert forall|j: int| 0 <= j < i implies a[j] == b[j] by {
        lemma_stable_order_agrees(keys, a, b, j);
    }
    if a[i] != b[i] {
        assert(b.contains(a[i]));
        let jb = choose|j: int| 0 <= j < b.len() && b[j] == a[i];
        assert(a.contains(b[i]));
        let ja = choose|j: int| 0 <= j < a.len() && a[j] == b[i];
        lemma_lex_less_irreflexive(keys[a[i]]);
        lemma_lex_less_irreflexive(keys[b[i]]);
        lemma_lex_less_asymmetric(keys[a[i]], keys[b[i]]);
        if jb < i {
            assert(precedes(keys, a[jb], a[i]));
        } else if ja < i {
            assert(precedes(keys, b[ja], b[i]));
        } else {
            assert(precedes(keys, b[i], b[jb]));
            assert(precedes(keys, a[i], a[ja]));
        }
    }
}

/// The order in which items are shown is settled by their keys: there is
/// only one.
pub proof fn lemma_stable_order_unique(keys: Seq<Seq<char>>, a: Seq<int>, b: Seq<int>)
    requires
        is_stable_order(a, keys),
        is_stable_order(b, keys),
    ensures
        a == b,
{
    assert forall|i: int| 0 <= i < a.len() implies a[i] == b[i] by {
        lemma_stable_order_agrees(keys, a, b, i);
    }
    assert(a =~= b);
}

/// The first place at or after `p` in `order` whose key comes after the key
/// at position `n`, or the length of `order` if there is none.
proof fn lemma_place_for(keys: Seq<Seq<char>>, order: Seq<int>, n: int, p: int) -> (q: int)
    requires
        0 <= p <= order.len(),
        forall|k: int| 0 <= k < p ==> !lex_less(keys[n], keys[#[trigger] order[k]]),
    ensures
        p <= q <= order.len(),
        forall|k: int| 0 <= k < q ==> !lex_less(keys[n], keys[#[trigger] order[k]]),
        q < order.len() ==> lex_less(keys[n], keys[order[q]]),
    decreases order.len() - p,
{
    if p < order.len() && !lex_less(keys[n], keys[order[p]]) {
        lemma_place_for(keys, order, n, p + 1)
    } else {
        p
    }
}

/// With the last position put in its place, an order of all keys but the
/// last is an order of all keys.
proof fn lemma_insert_keeps_order(keys: Seq<Seq<char>>, before: Seq<int>, p: int)
    requires
        keys.len() > 0,
        is_stable_order(before, keys.drop_last()),
        0 <= p <= before.len(),
        forall|k: int| 0 <= k < p ==> !lex_less(keys.last(), keys[#[trigger] before[k]]),
        p < before.len() ==> lex_less(keys.last(), keys[before[p]]),
    ensures
        is_stable_order(before.insert(p, keys.len() - 1), keys),
{
    let n = keys.len() - 1;
    let order = before.insert(p, n);
    assert forall|a: int, b: int| 0 <= a < b < before.len() implies precedes(
        keys,
        #[trigger] before[a],
        #[trigger] before[b],
    ) by {
        assert(precedes(keys.drop_last(), before[a], before[b]));
    }
    assert forall|a: int, b: int| 0 <= a < b < order.len() implies precedes(
        keys,
        #[trigger] order[a],
        #[trigger] order[b],
    ) by {
        if b < p {
            assert(order[a] == before[a] && order[b] == before[b]);
        } else if b == p {
            assert(order[a] == before[a]);
            lemma_lex_less_total(keys[n], keys[before[a]]);
        } else if a < p {
            assert(order[a] == before[a] && order[b] == before[b - 1]);
        } else if a == p {
            assert(order[b] == before[b - 1]);
            if b - 1 > p {
                assert(precedes(keys, before[p], before[b - 1]));
                if keys[before[p]] != keys[before[b - 1]] {
                    lemma_lex_less_transitive(keys[n], keys[before[p]], keys[before[b - 1]]);
                }
            }
        } else {
            assert(order[a] == before[a - 1] && order[b] == before[b - 1]);
        }
    }
    assert forall|r: int| 0 <= r < keys.len() implies #[trigger] order.contains(r) by {
        if r == n {
            assert(order[p] == r);
        } else {
            assert(before.contains(r));
            let k = choose|k: int| 0 <= k < before.len() && before[k] == r;
            if k < p {
                assert(order[k] == r);
            } else {
                assert(order[k + 1] == r);
            }
        }
    }
}

/// There is an order in which the items are shown, whatever their keys
/// are, and `stable_order` is that order.
pub proof fn lemma_stable_order_exists(keys: Seq<Seq<char>>)
    ensures
        is_stable_order(stable_order(keys), keys),
    decreases keys.len(),
{
    if keys.len() == 0 {
        assert(is_stable_order(Seq::<int>::empty(), keys));
    } else {
        lemma_stable_order_exists(keys.drop_last());
        let before = stable_order(keys.drop_last());
        let p = lemma_place_for(keys, before, keys.len() - 1, 0);
        lemma_insert_keeps_order(keys, before, p);
    }
}

/// Whether `a` comes before `b` as text.
pub(crate) fn chars_less(a: &Vec<char>, b: &Vec<char>) -> (less: bool)
    ensures
        less == lex_less(a@, b@),
{
    let mut i: usize = 0;
    assert(a@.skip(0) == a@ && b@.skip(0) == b@);
    while i < a.len() && i < b.len()
        invariant
            i <= a.len(),
            i <= b.len(),
            lex_less(a@, b@) == lex_less(a@.skip(i as int), b@.skip(i as int)),
        decreases a.len() - i,
    {
        if a[i] != b[i] {
            return (a[i] as u32) < (b[i] as u32);
        }
        assert(a@.skip(i as int).drop_first() == a@.skip(i + 1));
        assert(b@.skip(i as int).drop_first() == b@.skip(i + 1));
        i += 1;
    }
    i < b.len()
}

/// The order in which the items with the given keys are shown: the
/// positions of `keys`, sorted by key as text, equal keys in the order in
/// which they stand.
pub(crate) fn sort_positions(keys: &Vec<Vec<char>>) -> (order: Vec<usize>)
    ensures
        is_stable_order(positions(order@), texts_of(keys@)),
        positions(order@) == stable_order(texts_of(keys@)),
{
    let ghost texts = texts_of(keys@);
    let mut order: Vec<usize> = Vec::new();
    let mut i: usize = 0;
    assert(is_stable_order(positions(order@), texts.take(0)));
    while i < keys.len()
        invariant
            i <= keys.len(),
            texts == texts_of(keys@),
            is_stable_order(positions(order@), texts.take(i as int)),
            forall|k: int| 0 <= k < order.len() ==> #[trigger] order[k] < i,
        decreases keys.len() - i,
    {
        let ghost before = positions(order@);
        let ghost upto = texts.take(i + 1);
        let mut p: usize = 0;
        while p < order.len() && !chars_less(&keys[i], &keys[order[p]])
            invariant
                p <= order.len(),
                i < keys.len(),
                texts == texts_of(keys@),
                before == positions(order@),
                upto == texts.take(i + 1),
                forall|k: int| 0 <= k < order.len() ==> #[trigger] order[k] < i,
                forall|k: int| 0 <= k < p ==> !lex_less(upto.last(), upto[#[trigger] before[k]]),
            decreases order.len() - p,
        {
            assert(before[p as int] == order[p as int]);
            p += 1;
        }
        proof {
            assert(upto.drop_last() == texts.take(i as int));
            if p < order.len() {
                assert(before[p as int] == order[p as int]);
            }
            lemma_insert_keeps_order(upto, before, p as int);
        }
        order.insert(p, i);
        assert(positions(order@) == before.insert(p as int, i as int));
        i += 1;
    }
    proof {
        assert(texts.take(i as int) == texts);
        lemma_stable_order_exists(texts);
        lemma_stable_order_unique(texts, positions(order@), stable_order(texts));
    }
    order
}

} // verus!
