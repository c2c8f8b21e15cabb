//! Sorting keys without moving them.

use vstd::prelude::*;
use crate::words;

verus! {

/// The bytes of some vectors.
pub open spec fn views(keys: Seq<Vec<u8>>) -> Seq<Seq<u8>> {
    Seq::new(keys.len(), |i: int| keys[i]@)
}

/// Whether key `a` goes before key `b`: it is less, or equal and earlier.
pub open spec fn precedes(keys: Seq<Seq<u8>>, a: int, b: int) -> bool {
    words::less(keys[a], keys[b]) || (keys[a] == keys[b] && a < b)
}

/// `order` names every key from `lo` to `hi` once, in ascending order; equal keys keep
/// their order.
pub open spec fn is_order(keys: Seq<Seq<u8>>, order: Seq<usize>, lo: int, hi: int) -> bool {
    &&& order.len() == hi - lo
    &&& forall|i: int| 0 <= i < order.len() ==> lo <= #[trigger] order[i] < hi
    &&& forall|x: usize| lo <= x < hi ==> #[trigger] order.contains(x)
    &&& forall|i: int, j: int|
        #![trigger order[i], order[j]]
        0 <= i < j < order.len() ==> precedes(keys, order[i] as int, order[j] as int)
}

/// The order of the keys.
pub open spec fn order_of(keys: Seq<Seq<u8>>) -> Seq<usize> {
    choose|order: Seq<usize>| #[trigger] is_order(keys, order, 0, keys.len() as int)
}

/// Keys in another order.
pub open spec fn permuted(keys: Seq<Seq<u8>>, order: Seq<usize>) -> Seq<Seq<u8>> {
    Seq::new(order.len(), |i: int| keys[order[i] as int])
}

/// Values in another order.
pub open spec fn picked(values: Seq<i32>, order: Seq<usize>) -> Seq<i32> {
    Seq::new(order.len(), |i: int| values[order[i] as int])
}

/// Of two keys that differ one is less.
pub proof fn lemma_less_total(p: Seq<u8>, q: Seq<u8>)
    ensures
        words::less(p, q) || words::less(q, p) || p == q,
    decreases p.len(),
{
    if p.len() > 0 && q.len() > 0 && p[0] == q[0] {
        lemma_less_total(p.drop_first(), q.drop_first());
        if p.drop_first() == q.drop_first() {
            assert(p =~= seq![p[0]] + p.drop_first());
            assert(q =~= seq![q[0]] + q.drop_first());
        }
    } else if p.len() == 0 && q.len() == 0 {
        assert(p =~= q);
    }
}

/// No key is less than itself, and of two keys only one is less.
pub proof fn lemma_less_irreflexive(p: Seq<u8>, q: Seq<u8>)
    ensures
        !words::less(p, p),
        words::less(p, q) ==> !words::less(q, p),
    decreases p.len(),
{
    if p.len() > 0 {
        lemma_less_irreflexive(p.drop_first(), q.drop_first());
    }
}

pub proof fn lemma_less_transitive(p: Seq<u8>, q: Seq<u8>, r: Seq<u8>)
    requires
        words::less(p, q),
        words::less(q, r),
    ensures
        words::less(p, r),
    decreases p.len(),
{
    if p.len() > 0 && p[0] == q[0] && q[0] == r[0] {
        lemma_less_transitive(p.drop_first(), q.drop_first(), r.drop_first());
    }
}

proof fn lemma_precedes_transitive(keys: Seq<Seq<u8>>, a: int, b: int, c: int)
    requires
        precedes(keys, a, b),
        precedes(keys, b, c),
    ensures
        precedes(keys, a, c),
{
    if words::less(keys[a], keys[b]) && words::less(keys[b], keys[c]) {
        lemma_less_transitive(keys[a], keys[b], keys[c]);
    }
}

proof fn lemma_order_at(keys: Seq<Seq<u8>>, a: Seq<usize>, b: Seq<usize>, n: int, i: int)
    requires
        is_order(keys, a, 0, n),
        is_order(keys, b, 0, n),
        0 <= i < n,
    ensures
        a[i] == b[i],
    decreases i,
{
    assert(b.contains(a[i]) && a.contains(b[i]));
    let k = choose|k: int| 0 <= k < b.len() && b[k] == a[i];
    let m = choose|m: int| 0 <= m < a.len() && a[m] == b[i];
    lemma_less_irreflexive(keys[a[i] as int], keys[b[i] as int]);
    lemma_less_irreflexive(keys[b[i] as int], keys[a[i] as int]);
    if k < i {
        lemma_order_at(keys, a, b, n, k);
        assert(precedes(keys, a[k] as int, a[i] as int));
    } else if m < i {
        lemma_order_at(keys, a, b, n, m);
        assert(precedes(keys, b[m] as int, b[i] as int));
    } else if k > i && m > i {
        assert(precedes(keys, b[i] as int, b[k] as int));
        assert(precedes(keys, a[i] as int, a[m] as int));
    }
}

/// There is only one order of the keys.
pub proof fn lemma_one_order(keys: Seq<Seq<u8>>, order: Seq<usize>)
    requires
        is_order(keys, order, 0, keys.len() as int),
    ensures
        order == order_of(keys),
{
    let n = keys.len() as int;
    let other = order_of(keys);
    assert(is_order(keys, other, 0, n));
    assert forall|i: int| 0 <= i < n implies order[i] == other[i] by {
        lemma_order_at(keys, order, other, n, i);
    }
    assert(order =~= other);
}

/// Whether `a` comes before `b`, byte by byte.
pub fn is_less(a: &Vec<u8>, b: &Vec<u8>) -> (res: bool)
    ensures
        res == words::less(a@, b@),
{
    let mut i: usize = 0;
    assert(a@.skip(0) =~= a@);
    assert(b@.skip(0) =~= b@);
    while i < a.len() && i < b.len()
        invariant
            i <= a@.len(),
            i <= b@.len(),
            words::less(a@, b@) == words::less(a@.skip(i as int), b@.skip(i as int)),
        decreases a@.len() - i,
    {
        proof {
            assert(a@.skip(i as int).drop_first() =~= a@.skip(i + 1));
            assert(b@.skip(i as int).drop_first() =~= b@.skip(i + 1));
        }
        if a[i] != b[i] {
            return a[i] < b[i];
        }
        i += 1;
    }
    i < b.len()
}

/// Merges the orders of two neighbouring ranges of keys.
fn merge(
    keys: &Vec<Vec<u8>>,
    a: &Vec<usize>,
    b: &Vec<usize>,
    Ghost(lo): Ghost<int>,
    Ghost(mid): Ghost<int>,
    Ghost(hi): Ghost<int>,
) -> (res: Vec<usize>)
    requires
        0 <= lo <= mid <= hi <= keys@.len(),
        is_order(views(keys@), a@, lo, mid),
        is_order(views(keys@), b@, mid, hi),
    ensures
        is_order(views(keys@), res@, lo, hi),
{
    let ghost ks: Seq<Seq<u8>> = views(keys@);
    let mut out: Vec<usize> = Vec::new();
    let mut i: usize = 0;
    let mut j: usize = 0;
    while i < a.len() || j < b.len()
        invariant
            ks == views(keys@),
            0 <= lo <= mid <= hi <= keys@.len(),
            is_order(ks, a@, lo, mid),
            is_order(ks, b@, mid, hi),
            i <= a@.len(),
            j <= b@.len(),
            out@.len() == i + j,
            forall|x: int| 0 <= x < out@.len() ==> lo <= #[trigger] out@[x] < hi,
            forall|x: int, y: int|
                #![trigger out@[x], out@[y]]
                0 <= x < y < out@.len() ==> precedes(ks, out@[x] as int, out@[y] as int),
            forall|x: int, y: int|
                #![trigger out@[x], a@[y]]
                0 <= x < out@.len() && i <= y < a@.len() ==> precedes(ks, out@[x] as int, a@[y] as int),
            forall|x: int, y: int|
                #![trigger out@[x], b@[y]]
                0 <= x < out@.len() && j <= y < b@.len() ==> precedes(ks, out@[x] as int, b@[y] as int),
            forall|y: int| 0 <= y < i ==> out@.contains(#[trigger] a@[y]),
            forall|y: int| 0 <= y < j ==> out@.contains(#[trigger] b@[y]),
        decreases a@.len() - i + b@.len() - j,
    {
        let ghost before: Seq<usize> = out@;
        let from_a: bool = if i >= a.len() {
            false
        } else if j >= b.len() {
            true
        } else {
            !is_less(&keys[b[j]], &keys[a[i]])
        };
        if from_a {
            let x: usize = a[i];
            out.push(x);
            proof {
                if j < b@.len() {
                    lemma_less_total(ks[x as int], ks[b@[j as int] as int]);
                    assert(precedes(ks, x as int, b@[j as int] as int));
                }
                assert forall|y: int| j <= y < b@.len() implies precedes(ks, x as int, #[trigger] b@[y] as int) by {
                    if y > j {
                        lemma_precedes_transitive(ks, x as int, b@[j as int] as int, b@[y] as int);
                    }
                }
            }
            i += 1;
        } else {
            let x: usize = b[j];
            out.push(x);
            proof {
                if i < a@.len() {
                    assert(precedes(ks, x as int, a@[i as int] as int));
                }
                assert forall|y: int| i <= y < a@.len() implies precedes(ks, x as int, #[trigger] a@[y] as int) by {
                    if y > i {
                        lemma_precedes_transitive(ks, x as int, a@[i as int] as int, a@[y] as int);
                    }
                }
            }
            j += 1;
        }
        proof {
            let last = before.len() as int;
            assert forall|y: int| 0 <= y < i implies out@.contains(#[trigger] a@[y]) by {
                if before.contains(a@[y]) {
                    let z = choose|z: int| 0 <= z < before.len() && before[z] == a@[y];
                    assert(out@[z] == a@[y]);
                } else {
                    assert(out@[last] == a@[y]);
                }
            }
            assert forall|y: int| 0 <= y < j implies out@.contains(#[trigger] b@[y]) by {
                if before.contains(b@[y]) {
                    let z = choose|z: int| 0 <= z < before.len() && before[z] == b@[y];
                    assert(out@[z] == b@[y]);
                } else {
                    assert(out@[last] == b@[y]);
                }
            }
        }
    }
    proof {
        assert forall|x: usize| lo <= x < hi implies #[trigger] out@.contains(x) by {
            if x < mid {
                assert(a@.contains(x));
                let y = choose|y: int| 0 <= y < a@.len() && a@[y] == x;
                assert(out@.contains(a@[y]));
            } else {
                assert(b@.contains(x));
                let y = choose|y: int| 0 <= y < b@.len() && b@[y] == x;
                assert(out@.contains(b@[y]));
            }
        }
    }
    out
}

/// The order of the keys from `lo` to `hi`.
fn order_range(keys: &Vec<Vec<u8>>, lo: usize, hi: usize) -> (res: Vec<usize>)
    requires
        lo <= hi <= keys@.len(),
    ensures
        is_order(views(keys@), res@, lo as int, hi as int),
    decreases hi - lo,
{
    if hi - lo < 2 {
        let mut one: Vec<usize> = Vec::new();
        if lo < hi {
            one.push(lo);
            assert(one@[0] == lo);
        }
        return one;
    }
    let mid: usize = lo + (hi - lo) / 2;
    let a: Vec<usize> = order_range(keys, lo, mid);
    let b: Vec<usize> = order_range(keys, mid, hi);
    merge(keys, &a, &b, Ghost(lo as int), Ghost(mid as int), Ghost(hi as int))
}

/// The order of the keys: the positions of the keys, in ascending order of the keys. Equal
/// keys keep their order.
pub fn sort_order(keys: &Vec<Vec<u8>>) -> (res: Vec<usize>)
    ensures
        is_order(views(keys@), res@, 0, keys@.len() as int),
{
    order_range(keys, 0, keys.len())
}

} // verus!
