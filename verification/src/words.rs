//! What a sequence of keys with values means, and which sequences are refused.

use vstd::prelude::*;
use crate::trie::Dict;

verus! {

/// The number of bytes on which `p` and `q` agree from the start.
pub open spec fn lcp(p: Seq<u8>, q: Seq<u8>) -> nat
    decreases p.len(),
{
    if p.len() == 0 || q.len() == 0 || p[0] != q[0] {
        0
    } else {
        1 + lcp(p.drop_first(), q.drop_first())
    }
}

/// Up to the common length the two agree, and no further.
pub proof fn lemma_lcp(p: Seq<u8>, q: Seq<u8>)
    ensures
        lcp(p, q) <= p.len(),
        lcp(p, q) <= q.len(),
        forall|i: int| 0 <= i < lcp(p, q) ==> #[trigger] p[i] == q[i],
        lcp(p, q) < p.len() && lcp(p, q) < q.len() ==> p[lcp(p, q) as int] != q[lcp(p, q) as int],
    decreases p.len(),
{
    if p.len() > 0 && q.len() > 0 && p[0] == q[0] {
        let (r, s) = (p.drop_first(), q.drop_first());
        lemma_lcp(r, s);
        assert forall|i: int| 0 <= i < lcp(p, q) implies #[trigger] p[i] == q[i] by {
            if i > 0 {
                assert(r[i - 1] == s[i - 1]);
            }
        }
    }
}

/// The length up to which two sequences agree, and no further, is the common length.
pub proof fn lemma_lcp_is(p: Seq<u8>, q: Seq<u8>, n: nat)
    requires
        n <= p.len(),
        n <= q.len(),
        forall|i: int| 0 <= i < n ==> #[trigger] p[i] == q[i],
        n == p.len() || n == q.len() || p[n as int] != q[n as int],
    ensures
        lcp(p, q) == n,
{
    lemma_lcp(p, q);
    let l = lcp(p, q);
    if l < n {
        assert(p[l as int] == q[l as int]);
    }
    if n < l {
        assert(p[n as int] == q[n as int]);
    }
}

/// How far two keys, each with a zero behind it, agree.
pub fn common_len(a: &[u8], b: &[u8]) -> (res: usize)
    requires
        a@.len() < usize::MAX,
    ensures
        res == lcp(a@.push(0), b@.push(0)),
{
    let ghost p: Seq<u8> = a@.push(0);
    let ghost q: Seq<u8> = b@.push(0);
    let mut i: usize = 0;
    while i < a.len() && i < b.len() && a[i] == b[i]
        invariant
            i <= a@.len(),
            i <= b@.len(),
            p == a@.push(0),
            q == b@.push(0),
            forall|j: int| 0 <= j < i ==> #[trigger] p[j] == q[j],
        decreases a@.len() - i,
    {
        i += 1;
    }
    let x: u8 = if i < a.len() {
        a[i]
    } else {
        0
    };
    let y: u8 = if i < b.len() {
        b[i]
    } else {
        0
    };
    assert(x == p[i as int] && y == q[i as int]);
    let res: usize = if x != y {
        i
    } else {
        i + 1
    };
    proof {
        lemma_lcp_is(p, q, res as nat);
    }
    res
}

/// The position of the first zero, or the length.
pub open spec fn first_zero(s: Seq<u8>) -> nat
    decreases s.len(),
{
    if s.len() == 0 || s[0] == 0 {
        0
    } else {
        1 + first_zero(s.drop_first())
    }
}

/// A key up to its first zero.
pub open spec fn cut(key: Seq<u8>) -> Seq<u8> {
    key.take(first_zero(key) as int)
}

/// There is no zero before the first, and there is one there.
pub proof fn lemma_first_zero(s: Seq<u8>)
    ensures
        first_zero(s) <= s.len(),
        forall|i: int| 0 <= i < first_zero(s) ==> #[trigger] s[i] != 0,
        first_zero(s) < s.len() ==> s[first_zero(s) as int] == 0,
        first_zero(s) == s.len() <==> !s.contains(0),
    decreases s.len(),
{
    if s.len() > 0 && s[0] != 0 {
        let r = s.drop_first();
        lemma_first_zero(r);
        assert forall|i: int| 0 <= i < first_zero(s) implies #[trigger] s[i] != 0 by {
            if i > 0 {
                assert(r[i - 1] != 0);
            }
        }
    }
    if first_zero(s) < s.len() {
        assert(s.contains(s[first_zero(s) as int]));
    }
    if s.contains(0) {
        let i = choose|i: int| 0 <= i < s.len() && s[i] == 0;
        assert(s[i] == 0);
    }
}

/// The first zero is the one that has none before it.
pub proof fn lemma_first_zero_is(s: Seq<u8>, n: nat)
    requires
        n <= s.len(),
        forall|i: int| 0 <= i < n ==> #[trigger] s[i] != 0,
        n < s.len() ==> s[n as int] == 0,
    ensures
        first_zero(s) == n,
{
    lemma_first_zero(s);
    let z = first_zero(s);
    if z < n {
        assert(s[z as int] != 0);
    }
    if n < z {
        assert(s[n as int] != 0);
    }
}

/// The first zero of a beginning.
pub proof fn lemma_first_zero_take(s: Seq<u8>, n: int)
    requires
        0 <= n <= s.len(),
    ensures
        first_zero(s.take(n)) == (if first_zero(s) <= n {
            first_zero(s)
        } else {
            n as nat
        }),
{
    lemma_first_zero(s);
    let m = if first_zero(s) <= n {
        first_zero(s)
    } else {
        n as nat
    };
    assert forall|i: int| 0 <= i < m implies #[trigger] s.take(n)[i] != 0 by {
        assert(s[i] != 0);
    }
    lemma_first_zero_is(s.take(n), m);
}

/// A key is cut where the key with a zero behind it is.
pub proof fn lemma_first_zero_closed(key: Seq<u8>)
    ensures
        first_zero(key.push(0)) == first_zero(key),
        key.push(0).take(first_zero(key) as int) == cut(key),
{
    lemma_first_zero(key);
    let z = first_zero(key);
    assert forall|i: int| 0 <= i < z implies #[trigger] key.push(0)[i] != 0 by {
        assert(key[i] != 0);
    }
    lemma_first_zero_is(key.push(0), z);
    assert(key.push(0).take(z as int) =~= cut(key));
}

/// A key without zeros is not cut.
pub proof fn lemma_cut_whole(key: Seq<u8>)
    requires
        !key.contains(0),
    ensures
        cut(key) == key,
{
    lemma_first_zero(key);
    assert(key.take(key.len() as int) =~= key);
}

/// Whether `p` comes before `q`, byte by byte.
pub open spec fn less(p: Seq<u8>, q: Seq<u8>) -> bool
    decreases p.len(),
{
    if q.len() == 0 {
        false
    } else if p.len() == 0 {
        true
    } else if p[0] != q[0] {
        p[0] < q[0]
    } else {
        less(p.drop_first(), q.drop_first())
    }
}

/// What two keys begin with does not matter to their order.
pub proof fn lemma_less_after(p: Seq<u8>, k: Seq<u8>, l: Seq<u8>)
    ensures
        less(p + k, p + l) == less(k, l),
    decreases p.len(),
{
    if p.len() == 0 {
        assert(p + k =~= k);
        assert(p + l =~= l);
    } else {
        assert((p + k).drop_first() =~= p.drop_first() + k);
        assert((p + l).drop_first() =~= p.drop_first() + l);
        lemma_less_after(p.drop_first(), k, l);
    }
}

/// The error, if any, of inserting `key` after a key whose bytes, with a zero at the end,
/// are `p`. There is no key before the first, and then `p` is empty.
pub open spec fn insert_error(p: Seq<u8>, key: Seq<u8>, value: i32) -> Option<Seq<char>> {
    let q = key.push(0);
    let l = lcp(p, q);
    if value < 0 {
        Some("Failed to insert key: negative value"@)
    } else if key.len() == 0 {
        Some("Failed to insert key: zero-length key"@)
    } else if p.len() > 0 && exists|j: int| 0 <= j <= l && j < key.len() && #[trigger] key[j] == 0 {
        Some("Failed to insert key: invalid null character"@)
    } else if l < p.len() && l < q.len() && q[l as int] < p[l as int] {
        Some("Failed to insert key: wrong key order"@)
    } else {
        None
    }
}

/// The bytes that the next key is held against once `key` was inserted after `p`: those
/// of `key`, unless all of them were there.
pub open spec fn next_path(p: Seq<u8>, key: Seq<u8>) -> Seq<u8> {
    if lcp(p, key.push(0)) == key.len() + 1 {
        p
    } else {
        key.push(0)
    }
}

/// The bytes that `key`, with a zero at the end, adds to those of `p`.
pub open spec fn new_bytes(p: Seq<u8>, key: Seq<u8>) -> nat {
    (key.len() + 1 - lcp(p, key.push(0))) as nat
}

/// Dictionary `d` once `key` was inserted: the first value of a key stays.
pub open spec fn with_key(d: Dict, key: Seq<u8>, value: i32) -> Dict {
    |k: Seq<u8>|
        if k == key && d(k) is None {
            Some(value)
        } else {
            d(k)
        }
}

/// The value of the first of the first `n` keys that equals `k`.
pub open spec fn first_value(keys: Seq<Seq<u8>>, values: Seq<i32>, n: int, k: Seq<u8>) -> Option<i32>
    decreases n,
{
    if n <= 0 {
        None
    } else {
        match first_value(keys, values, n - 1, k) {
            Some(v) => Some(v),
            None => if keys[n - 1] == k {
                Some(values[n - 1])
            } else {
                None
            },
        }
    }
}

/// The dictionary that the keys and values stand for: a key has the value of its first
/// occurrence.
pub open spec fn dict_of(keys: Seq<Seq<u8>>, values: Seq<i32>) -> Dict {
    |k: Seq<u8>| first_value(keys, values, keys.len() as int, k)
}

/// A key that does not occur has no value.
pub proof fn lemma_first_none(keys: Seq<Seq<u8>>, values: Seq<i32>, n: int, k: Seq<u8>)
    requires
        0 <= n <= keys.len(),
        forall|i: int| 0 <= i < n ==> #[trigger] keys[i] != k,
    ensures
        first_value(keys, values, n, k) is None,
    decreases n,
{
    if n > 0 {
        lemma_first_none(keys, values, n - 1, k);
        assert(keys[n - 1] != k);
    }
}

/// A key has the value of its first occurrence.
pub proof fn lemma_first_at(keys: Seq<Seq<u8>>, values: Seq<i32>, n: int, i: int)
    requires
        0 <= i < n <= keys.len(),
        forall|j: int| 0 <= j < i ==> #[trigger] keys[j] != keys[i],
    ensures
        first_value(keys, values, n, keys[i]) == Some(values[i]),
    decreases n,
{
    if i == n - 1 {
        lemma_first_none(keys, values, i, keys[i]);
    } else {
        lemma_first_at(keys, values, n - 1, i);
    }
}

/// The values decide what the keys have.
pub proof fn lemma_first_same(keys: Seq<Seq<u8>>, values: Seq<i32>, others: Seq<i32>, n: int, k: Seq<u8>)
    requires
        0 <= n <= keys.len(),
        forall|i: int| 0 <= i < n ==> #[trigger] values[i] == others[i],
    ensures
        first_value(keys, values, n, k) == first_value(keys, others, n, k),
    decreases n,
{
    if n > 0 {
        lemma_first_same(keys, values, others, n - 1, k);
        assert(values[n - 1] == others[n - 1]);
    }
}

/// A key that has a value occurs, with that value.
pub proof fn lemma_first_occurs(keys: Seq<Seq<u8>>, values: Seq<i32>, n: int, k: Seq<u8>) -> (i: int)
    requires
        0 <= n <= keys.len(),
        first_value(keys, values, n, k) is Some,
    ensures
        0 <= i < n,
        keys[i] == k,
        first_value(keys, values, n, k) == Some(values[i]),
        forall|j: int| 0 <= j < i ==> #[trigger] keys[j] != k,
    decreases n,
{
    if first_value(keys, values, n - 1, k) is Some {
        lemma_first_occurs(keys, values, n - 1, k)
    } else {
        assert forall|j: int| 0 <= j < n - 1 implies #[trigger] keys[j] != k by {
            if keys[j] == k {
                lemma_occurs_some(keys, values, n - 1, j);
            }
        }
        n - 1
    }
}

/// A key that occurs has a value.
pub proof fn lemma_occurs_some(keys: Seq<Seq<u8>>, values: Seq<i32>, n: int, i: int)
    requires
        0 <= i < n <= keys.len(),
    ensures
        first_value(keys, values, n, keys[i]) is Some,
    decreases n,
{
    if i < n - 1 {
        lemma_occurs_some(keys, values, n - 1, i);
    }
}

/// The bytes that the `i`th key, with a zero at the end, adds to the key before it.
pub open spec fn size_step(keys: Seq<Seq<u8>>, i: int) -> nat {
    if i <= 0 {
        keys[i].len() + 1
    } else {
        (keys[i].len() + 1 - lcp(keys[i - 1].push(0), keys[i].push(0))) as nat
    }
}

/// The edges of the tree of the first `n` keys, if they are sorted: every byte of a key
/// that its predecessor does not have at that place, and one for its end.
pub open spec fn trie_size(keys: Seq<Seq<u8>>, n: int) -> nat
    decreases n,
{
    if n <= 0 {
        0
    } else {
        trie_size(keys, n - 1) + size_step(keys, n - 1)
    }
}

/// The size grows with the number of keys.
pub proof fn lemma_size_monotonic(keys: Seq<Seq<u8>>, m: int, n: int)
    requires
        m <= n,
    ensures
        trie_size(keys, m) <= trie_size(keys, n),
    decreases n - m,
{
    if m < n {
        lemma_size_monotonic(keys, m, n - 1);
    }
}

/// A path through the tree is no longer than the tree is large.
pub proof fn lemma_len_bound(keys: Seq<Seq<u8>>, i: int)
    requires
        0 <= i < keys.len(),
    ensures
        keys[i].len() + 1 <= trie_size(keys, i + 1),
    decreases i,
{
    if i > 0 {
        lemma_len_bound(keys, i - 1);
        lemma_lcp(keys[i - 1].push(0), keys[i].push(0));
    }
}

/// The bytes that the `n`th key is held against when all keys before it were inserted.
pub open spec fn path_after(keys: Seq<Seq<u8>>, n: int) -> Seq<u8>
    decreases n,
{
    if n <= 0 {
        Seq::empty()
    } else {
        next_path(path_after(keys, n - 1), keys[n - 1])
    }
}

/// The first error among the first `n` keys, inserted one after the other.
pub open spec fn sequence_error(keys: Seq<Seq<u8>>, values: Seq<i32>, n: int) -> Option<Seq<char>>
    decreases n,
{
    if n <= 0 {
        None
    } else {
        match sequence_error(keys, values, n - 1) {
            Some(e) => Some(e),
            None => insert_error(path_after(keys, n - 1), keys[n - 1], values[n - 1]),
        }
    }
}

/// How many of the first `n` keys are inserted before one of them is refused.
pub open spec fn accepted(keys: Seq<Seq<u8>>, values: Seq<i32>, n: int) -> int
    decreases n,
{
    if n <= 0 || sequence_error(keys, values, n) is None {
        n
    } else {
        accepted(keys, values, n - 1)
    }
}

/// The keys before the one that is refused are inserted.
pub proof fn lemma_accepted(keys: Seq<Seq<u8>>, values: Seq<i32>, i: int, n: int)
    requires
        0 <= i < n,
        sequence_error(keys, values, i) is None,
        sequence_error(keys, values, i + 1) is Some,
    ensures
        accepted(keys, values, n) == i,
    decreases n - i,
{
    lemma_error_stays(keys, values, i + 1, n);
    if i + 1 < n {
        lemma_accepted(keys, values, i, n - 1);
    } else {
        assert(accepted(keys, values, i) == i);
    }
}

/// Once there is an error, there is that error.
pub proof fn lemma_error_stays(keys: Seq<Seq<u8>>, values: Seq<i32>, m: int, n: int)
    requires
        m <= n,
        sequence_error(keys, values, m) is Some,
    ensures
        sequence_error(keys, values, n) == sequence_error(keys, values, m),
    decreases n - m,
{
    if m < n {
        lemma_error_stays(keys, values, m, n - 1);
    }
}

/// The path begins with the bytes of the last key, and does not end before a zero.
pub proof fn lemma_path_after(keys: Seq<Seq<u8>>, n: int)
    requires
        0 < n <= keys.len(),
    ensures
        path_after(keys, n).len() > keys[n - 1].len(),
        path_after(keys, n).take(keys[n - 1].len() as int + 1) == keys[n - 1].push(0),
{
    let p = path_after(keys, n - 1);
    let q = keys[n - 1].push(0);
    lemma_lcp(p, q);
    if lcp(p, q) == q.len() {
        assert(p.take(q.len() as int) =~= q);
    } else {
        assert(q.take(q.len() as int) =~= q);
    }
}

/// A key adds to the path no more than to its predecessor, and just as much if there is
/// no error.
pub proof fn lemma_new_bytes(keys: Seq<Seq<u8>>, n: int, value: i32)
    requires
        0 <= n < keys.len(),
    ensures
        new_bytes(path_after(keys, n), keys[n]) <= size_step(keys, n),
        insert_error(path_after(keys, n), keys[n], value) is None ==> new_bytes(path_after(keys, n), keys[n])
            == size_step(keys, n),
{
    let p = path_after(keys, n);
    let q = keys[n].push(0);
    lemma_lcp(p, q);
    if n > 0 {
        let r = keys[n - 1].push(0);
        lemma_path_after(keys, n);
        lemma_lcp(r, q);
        let m = lcp(r, q);
        assert forall|i: int| 0 <= i < r.len() implies #[trigger] p[i] == r[i] by {
            assert(p.take(r.len() as int)[i] == p[i]);
        }
        if m < r.len() && m < q.len() {
            lemma_lcp_is(p, q, m);
        } else if m == q.len() {
            lemma_lcp_is(p, q, m);
        } else {
            // all of the key before is there
            assert forall|i: int| 0 <= i < m implies #[trigger] p[i] == q[i] by {
                assert(r[i] == q[i]);
            }
            if lcp(p, q) < m {
                let l = lcp(p, q) as int;
                assert(p[l] == q[l]);
            }
            assert(q[m - 1] == r[m - 1]);
            if m < q.len() {
                assert(keys[n][m - 1] == 0);
            }
        }
    }
}

} // verus!
