//! What lists of keys hold, in terms of what following keys gives and of what was built.

use vstd::prelude::*;
use crate::array;
use crate::builder;
use crate::bytes;
use crate::keyset;
use crate::laws;
use crate::promises;
use crate::trie;
use crate::words;

verus! {

/// One key comes before another if, behind a common beginning, it ends first or has the lower
/// byte.
pub proof fn law_less(p: Seq<u8>, q: Seq<u8>)
    ensures
        words::less(p, q) <==> exists|n: int|
            0 <= n <= p.len() && n < q.len() && #[trigger] p.take(n) == q.take(n) && (n == p.len() || p[n] < q[n]),
    decreases p.len(),
{
    if p.len() > 0 && q.len() > 0 && p[0] == q[0] {
        let (r, t) = (p.drop_first(), q.drop_first());
        law_less(r, t);
        if words::less(p, q) {
            let n = choose|n: int|
                0 <= n <= r.len() && n < t.len() && #[trigger] r.take(n) == t.take(n) && (n == r.len() || r[n] < t[n]);
            assert(p.take(n + 1) =~= seq![p[0]] + r.take(n));
            assert(q.take(n + 1) =~= seq![q[0]] + t.take(n));
            assert(p.take(n + 1) == q.take(n + 1));
        }
        if exists|n: int|
            0 <= n <= p.len() && n < q.len() && #[trigger] p.take(n) == q.take(n) && (n == p.len() || p[n] < q[n]) {
            let n = choose|n: int|
                0 <= n <= p.len() && n < q.len() && #[trigger] p.take(n) == q.take(n) && (n == p.len() || p[n] < q[n]);
            assert(n > 0);
            assert(r.take(n - 1) =~= p.take(n).drop_first());
            assert(t.take(n - 1) =~= q.take(n).drop_first());
            assert(r.take(n - 1) == t.take(n - 1));
        }
    } else {
        assert(p.take(0) =~= q.take(0));
        if exists|n: int|
            0 <= n <= p.len() && n < q.len() && #[trigger] p.take(n) == q.take(n) && (n == p.len() || p[n] < q[n]) {
            let n = choose|n: int|
                0 <= n <= p.len() && n < q.len() && #[trigger] p.take(n) == q.take(n) && (n == p.len() || p[n] < q[n]);
            if n > 0 {
                assert(p.take(n)[0] == p[0]);
                assert(q.take(n)[0] == q[0]);
            }
        }
    }
}

/// What is listed below a node is put behind what was in the list, in ascending order, and
/// begins with the prefix. The prefix itself is listed with the value that the node has.
pub proof fn law_listed_value(
    a: Seq<u32>,
    node: usize,
    prefix: Seq<u8>,
    before: Seq<(Seq<u8>, i32)>,
    after: Seq<(Seq<u8>, i32)>,
    res: i32,
    end_node: usize,
    end_pos: usize,
)
    requires
        node < a.len() <= u32::MAX,
        array::listed_below(a, node, prefix, before, after),
        array::followed(a, Seq::empty(), node, 0, res, end_node, end_pos),
    ensures
        after.len() >= before.len(),
        after.take(before.len() as int) == before,
        forall|i: int, j: int|
            #![trigger after[i], after[j]]
            before.len() <= i < j < after.len() ==> words::less(after[i].0, after[j].0),
        forall|i: int|
            #![trigger after[i]]
            before.len() <= i < after.len() ==> promises::begins_with(after[i].0, prefix),
        forall|v: i32| #[trigger] after.skip(before.len() as int).contains((prefix, v)) <==> res == v && v >= 0,
{
    let n = before.len() as int;
    let s = after.skip(n);
    let none = Seq::<u8>::empty();
    promises::lemma_from_node(a, none, node, res, end_node, end_pos);
    assert forall|i: int, j: int|
        #![trigger after[i], after[j]]
        n <= i < j < after.len() implies words::less(after[i].0, after[j].0) by {
        assert(s[i - n] == after[i]);
        assert(s[j - n] == after[j]);
    }
    assert forall|i: int| #![trigger after[i]] n <= i < after.len() implies promises::begins_with(
        after[i].0,
        prefix,
    ) by {
        assert(s[i - n] == after[i]);
        assert(after[i].0 == prefix + after[i].0.skip(prefix.len() as int));
    }
    assert(array::trail(a, node as int, none) == Some(node as int));
    assert(trie::walk(a, node as int, none) == Some(node as int));
    assert(array::entry(a, node as int, none) == trie::lookup(a, node as int, none));
    assert(prefix + none =~= prefix);
    assert forall|v: i32| #[trigger] s.contains((prefix, v)) <==> res == v && v >= 0 by {
        if s.contains((prefix, v)) {
            let i = choose|i: int| 0 <= i < s.len() && s[i] == (prefix, v);
            assert(s[i].0.skip(prefix.len() as int) =~= none);
        }
        if res == v && v >= 0 {
            assert(array::entry(a, node as int, none) is Some);
        }
    }
}

/// What is listed below a node with a byte behind the prefix is what is listed below the node
/// to which the byte leads, with that byte added to the prefix. A byte that leads nowhere, or
/// back to the node, has nothing in the list.
pub proof fn law_listed_child(
    a: Seq<u32>,
    node: usize,
    prefix: Seq<u8>,
    before: Seq<(Seq<u8>, i32)>,
    after: Seq<(Seq<u8>, i32)>,
    list: Seq<(u8, usize)>,
    c: u8,
    p: usize,
    child_before: Seq<(Seq<u8>, i32)>,
    child_after: Seq<(Seq<u8>, i32)>,
    k: Seq<u8>,
    v: i32,
)
    requires
        node < a.len() <= 0x8000_0000,
        array::listed_below(a, node, prefix, before, after),
        array::branches(a, node, list),
        list.contains((c, p)) ==> array::listed_below(a, p, prefix.push(c), child_before, child_after),
    ensures
        list.contains((c, p)) && p != node ==> (after.skip(before.len() as int).contains((prefix.push(c) + k, v))
            <==> child_after.skip(child_before.len() as int).contains((prefix.push(c) + k, v))),
        list.contains((c, p)) && p == node ==> !after.skip(before.len() as int).contains((prefix.push(c) + k, v)),
        (forall|q: usize| !#[trigger] list.contains((c, q))) ==> !after.skip(before.len() as int).contains(
            (prefix.push(c) + k, v),
        ),
{
    let pos = node as int;
    let s = after.skip(before.len() as int);
    let t = child_after.skip(child_before.len() as int);
    let whole = prefix.push(c) + k;
    let one = trie::cons(c, k);
    array::lemma_trail_cons(a, pos, c, k);
    assert(whole =~= prefix + one);
    lemma_one_byte(a, node, list, c, p);
    assert(s.contains((whole, v)) <==> array::entry(a, pos, one) == Some(v)) by {
        lemma_lists(s, a, pos, prefix, one, v);
    }
    if list.contains((c, p)) {
        assert(trie::step(a, pos, c) == Some(p as int));
        assert(p < a.len());
        lemma_lists(t, a, p as int, prefix.push(c), k, v);
    } else if forall|q: usize| !#[trigger] list.contains((c, q)) {
        if let Some(q) = trie::step(a, pos, c) {
            lemma_one_byte(a, node, list, c, q as usize);
            assert(list.contains((c, q as usize)));
        }
    }
}

proof fn lemma_one_byte(a: Seq<u32>, node: usize, list: Seq<(u8, usize)>, c: u8, p: usize)
    requires
        node < a.len() <= 0x8000_0000,
        array::branches(a, node, list),
    ensures
        list.contains((c, p)) <==> trie::step(a, node as int, c) == Some(p as int),
        trie::step(a, node as int, c) matches Some(q) ==> 0 <= q < a.len(),
{
    let pos = node as int;
    array::law_children(a, pos, c, p);
    let key = seq![c];
    assert(key.drop_last() =~= Seq::<u8>::empty());
    assert(trie::walk(a, pos, key.drop_last()) == Some(pos));
    assert(trie::walk(a, pos, key) == trie::step(a, pos, c));
    reveal_with_fuel(array::matched, 2);
    assert(key.drop_first() =~= Seq::<u8>::empty());
}

proof fn lemma_lists(s: Seq<(Seq<u8>, i32)>, a: Seq<u32>, pos: int, prefix: Seq<u8>, k: Seq<u8>, v: i32)
    requires
        array::lists(s, a, pos, prefix, 256),
    ensures
        s.contains((prefix + k, v)) <==> array::entry(a, pos, k) == Some(v),
{
    if s.contains((prefix + k, v)) {
        let i = choose|i: int| 0 <= i < s.len() && s[i] == (prefix + k, v);
        assert(s[i].0.skip(prefix.len() as int) =~= k);
    }
    if array::entry(a, pos, k) == Some(v) {
        assert(k.len() > 0 ==> k[0] < 256);
    }
}

/// The list of all keys is what is listed below the root with an empty prefix.
pub proof fn law_listed_all(a: Seq<u32>, list: Seq<(Seq<u8>, i32)>, after: Seq<(Seq<u8>, i32)>)
    requires
        a.len() > 0,
        array::listed(a, list),
        array::listed_below(a, 0, Seq::empty(), Seq::empty(), after),
    ensures
        list == after,
{
    let none = Seq::<u8>::empty();
    assert(after.skip(0) =~= after);
    assert forall|k: Seq<u8>, v: i32| #[trigger] list.contains((k, v)) <==> after.contains((k, v)) by {
        assert(none + k =~= k);
        lemma_lists(after, a, 0, none, k, v);
    }
    laws::lemma_sorted_unique(list, after);
}

/// An array that was built without values lists its keys in their order, each with its
/// position.
pub proof fn law_listed_positions(keys: Seq<&[u8]>, data: Vec<u8>, list: Seq<(Seq<u8>, i32)>)
    requires
        builder::can_build(keys, None),
        builder::build_outcome(keys, None, Ok(data)),
        array::listed(bytes::words(data@), list),
    ensures
        list.len() == keys.len(),
        forall|i: int| #![trigger list[i]] 0 <= i < list.len() ==> list[i].0 == keys[i]@ && list[i].1 == i,
{
    let seqs = keyset::key_seqs(keys);
    let a = bytes::words(data@);
    laws::law_direct_sorted(seqs);
    if keys.len() == 0 {
        laws::law_empty_listing(a, seqs, None);
        if list.len() > 0 {
            assert(list.contains((list[0].0, list[0].1)));
            assert(array::entry(a, 0, list[0].0) is None);
        }
    } else {
        laws::law_listing_gives_back(a, seqs, None, list);
        promises::lemma_few_positions(keys, data);
    }
}

/// An array that was built with values, from keys without zero bytes, lists each of its keys
/// with its first value, in ascending order, and nothing else.
pub proof fn law_listed_values(
    keys: Seq<&[u8]>,
    values: &[i32],
    data: Vec<u8>,
    list: Seq<(Seq<u8>, i32)>,
    k: Seq<u8>,
    v: i32,
)
    requires
        builder::can_build(keys, Some(values)),
        builder::build_outcome(keys, Some(values), Ok(data)),
        forall|i: int| 0 <= i < keys.len() ==> !(#[trigger] keys[i]@).contains(0),
        array::listed(bytes::words(data@), list),
    ensures
        forall|i: int, j: int|
            #![trigger list[i], list[j]]
            0 <= i < j < list.len() ==> words::less(list[i].0, list[j].0),
        list.contains((k, v)) <==> exists|i: int|
            0 <= i < keys.len() && #[trigger] keys[i]@ == k && values@[i] == v && forall|j: int|
                0 <= j < i ==> #[trigger] keys[j]@ != k,
{
    let seqs = keyset::key_seqs(keys);
    let a = bytes::words(data@);
    let n = keys.len() as int;
    assert forall|i: int| 0 <= i < seqs.len() implies !(#[trigger] seqs[i]).contains(0) by {
        assert(!keys[i]@.contains(0));
    }
    if keys.len() == 0 {
        laws::law_empty_listing(a, seqs, Some(values));
        assert(array::entry(a, 0, k) is None);
    } else {
        laws::law_listing(a, seqs, Some(values));
        assert(array::entry(a, 0, k) == words::first_value(seqs, values@, n, k));
        if list.contains((k, v)) {
            let i = words::lemma_first_occurs(seqs, values@, n, k);
            assert(keys[i]@ == k);
            assert forall|j: int| 0 <= j < i implies #[trigger] keys[j]@ != k by {
                assert(seqs[j] != k);
            }
        }
        if exists|i: int|
            0 <= i < keys.len() && #[trigger] keys[i]@ == k && values@[i] == v && forall|j: int|
                0 <= j < i ==> #[trigger] keys[j]@ != k {
            let i = choose|i: int|
                0 <= i < keys.len() && #[trigger] keys[i]@ == k && values@[i] == v && forall|j: int|
                    0 <= j < i ==> #[trigger] keys[j]@ != k;
            assert(seqs[i] == k);
            assert forall|j: int| 0 <= j < i implies #[trigger] seqs[j] != seqs[i] by {
                assert(keys[j]@ != k);
            }
            words::lemma_first_at(seqs, values@, n, i);
        }
    }
}

/// The keys below a node end within some steps exactly if those below each other node to which
/// a byte leads end within one step less.
pub proof fn law_finite(a: Seq<u32>, node: usize, list: Seq<(u8, usize)>, height: nat)
    requires
        node < a.len() <= 0x8000_0000,
        array::branches(a, node, list),
    ensures
        array::finite(a, node as int, height) <==> forall|c: u8, p: usize| #[trigger]
            list.contains((c, p)) && p != node ==> height > 0 && array::finite(a, p as int, (height - 1) as nat),
{
    let pos = node as int;
    if array::finite(a, pos, height) {
        assert forall|c: u8, p: usize| #[trigger] list.contains((c, p)) && p != node implies height > 0
            && array::finite(a, p as int, (height - 1) as nat) by {
            lemma_one_byte(a, node, list, c, p);
            array::lemma_finite_child(a, pos, height, c, p as int);
        }
    }
    if forall|c: u8, p: usize| #[trigger]
        list.contains((c, p)) && p != node ==> height > 0 && array::finite(a, p as int, (height - 1) as nat) {
        assert forall|k: Seq<u8>| (#[trigger] array::trail(a, pos, k)) is Some implies k.len() <= height by {
            if k.len() > 0 {
                let c = k[0];
                let r = k.drop_first();
                assert(k =~= trie::cons(c, r));
                array::lemma_trail_cons(a, pos, c, r);
                let q = array::hop(a, pos, c)->0;
                lemma_one_byte(a, node, list, c, q as usize);
                assert(list.contains((c, q as usize)));
                assert(array::trail(a, q, r) is Some);
            }
        }
    }
}

/// An array that was built can be listed.
pub proof fn law_built_finite(keys: Seq<&[u8]>, values: Option<&[i32]>, data: Vec<u8>)
    requires
        builder::can_build(keys, values),
        builder::build_outcome(keys, values, Ok(data)),
    ensures
        exists|height: nat| #[trigger] array::finite(bytes::words(data@), 0, height),
{
    laws::law_listable(bytes::words(data@), keyset::key_seqs(keys), values);
}

} // verus!
