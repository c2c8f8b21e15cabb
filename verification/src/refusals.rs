//! Which keys a build refuses, and what it says of them.

use vstd::prelude::*;
use crate::builder;
use crate::direct;
use crate::error::BuildError;
use crate::keyset;
use crate::laws;
use crate::plan;
use crate::plan::Plan;
use crate::progress;
use crate::progress::Callback;
use crate::sketch;
use crate::sort;
use crate::unit;
use crate::words;

verus! {

/// Keys that are inserted without an error.
pub proof fn lemma_good(keys: Seq<Seq<u8>>, values: Seq<i32>, n: int)
    requires
        0 <= n <= keys.len(),
        forall|j: int| 0 <= j < n ==> !(#[trigger] keys[j]).contains(0) && keys[j].len() > 0 && values[j] >= 0,
        forall|j: int| 0 < j < n ==> !words::less(#[trigger] keys[j], keys[j - 1]),
    ensures
        words::sequence_error(keys, values, n) is None,
        words::path_after(keys, n) == (if n == 0 {
            Seq::empty()
        } else {
            keys[n - 1].push(0)
        }),
    decreases n,
{
    if n > 0 {
        lemma_good(keys, values, n - 1);
        let p = words::path_after(keys, n - 1);
        let k = keys[n - 1];
        let q = k.push(0);
        assert(!k.contains(0) && k.len() > 0 && values[n - 1] >= 0);
        words::lemma_lcp(p, q);
        let l = words::lcp(p, q) as int;
        if n > 1 {
            let j = keys[n - 2];
            assert(!j.contains(0));
            assert(!words::less(keys[n - 1], keys[n - 1 - 1]));
            laws::lemma_less_closed(j, k);
            if l == q.len() {
                let m = k.len() as int;
                assert(p[m] == q[m]);
                if m < j.len() {
                    assert(j[m] == 0);
                    assert(j.contains(0));
                }
                assert(p =~= q);
            }
        }
        assert(words::insert_error(p, k, values[n - 1]) is None) by {
            if exists|j: int| 0 <= j <= l && j < k.len() && #[trigger] k[j] == 0 {
                let j = choose|j: int| 0 <= j <= l && j < k.len() && #[trigger] k[j] == 0;
                assert(k.contains(0));
            }
        }
    }
}

/// Keys with values are refused for the first of them that is wrong. A negative value comes
/// before an empty key, this before a zero byte up to which the key agrees with the one before
/// it, and this before an order that does not ascend.
#[verifier::rlimit(30)]
pub proof fn law_values_refused(
    keys: Seq<&[u8]>,
    values: &[i32],
    res: Result<Vec<u8>, BuildError>,
    i: int,
    z: int,
)
    requires
        builder::can_build(keys, Some(values)),
        builder::build_outcome(keys, Some(values), res),
        0 <= i < keys.len(),
        forall|j: int| 0 <= j < i ==> !(#[trigger] keys[j])@.contains(0) && keys[j]@.len() > 0 && values@[j] >= 0,
        forall|j: int| 0 < j < i ==> !words::less((#[trigger] keys[j])@, keys[j - 1]@),
    ensures
        values@[i] < 0 ==> (res matches Err(BuildError::Message(text))
            && text@ == "Failed to insert key: negative value"@),
        values@[i] >= 0 && keys[i]@.len() == 0 ==> (res matches Err(BuildError::Message(text))
            && text@ == "Failed to insert key: zero-length key"@),
        values@[i] >= 0 && i > 0 && 0 <= z < keys[i]@.len() && z <= keys[i - 1]@.len() && keys[i]@[z] == 0
            && keys[i]@.take(z) == keys[i - 1]@.take(z) ==> (res matches Err(BuildError::Message(text))
                && text@ == "Failed to insert key: invalid null character"@),
        values@[i] >= 0 && keys[i]@.len() > 0 && i > 0 && !keys[i]@.contains(0) && words::less(keys[i]@, keys[i - 1]@)
            ==> (res matches Err(BuildError::Message(text)) && text@ == "Failed to insert key: wrong key order"@),
{
    let seqs = keyset::key_seqs(keys);
    let n = keys.len() as int;
    assert forall|j: int| 0 <= j < i implies !(#[trigger] seqs[j]).contains(0) && seqs[j].len() > 0 && values@[j]
        >= 0 by {
        assert(!keys[j]@.contains(0));
    }
    assert forall|j: int| 0 < j < i implies !words::less(#[trigger] seqs[j], seqs[j - 1]) by {
        assert(!words::less(keys[j]@, keys[j - 1]@));
    }
    lemma_good(seqs, values@, i);
    let p = words::path_after(seqs, i);
    let k = keys[i]@;
    let q = k.push(0);
    let l = words::lcp(p, q) as int;
    let e = words::insert_error(p, k, values@[i]);
    assert(words::sequence_error(seqs, values@, i + 1) == e);
    words::lemma_lcp(p, q);
    if i > 0 {
        let j = keys[i - 1]@;
        assert(!j.contains(0));
        if 0 <= z < k.len() && z <= j.len() && k[z] == 0 && k.take(z) == j.take(z) {
            if l < z {
                assert(k.take(z)[l] == j.take(z)[l]);
            }
            assert(z <= l);
        }
        if !k.contains(0) {
            laws::lemma_less_closed(j, k);
            assert forall|x: int| 0 <= x <= l && x < k.len() implies #[trigger] k[x] != 0 by {
                if k[x] == 0 {
                    assert(k.contains(0));
                }
            }
        }
    }
    if e is Some {
        words::lemma_error_stays(seqs, values@, i + 1, n);
    }
}

/// Keys with values that ascend, without zero bytes and none of them empty, and with no negative
/// value, are not refused, unless there is no room for their array.
pub proof fn law_values_accepted(keys: Seq<&[u8]>, values: &[i32], res: Result<Vec<u8>, BuildError>, m: nat)
    requires
        builder::can_build(keys, Some(values)),
        builder::build_outcome(keys, Some(values), res),
        forall|j: int| 0 <= j < keys.len() ==> !(#[trigger] keys[j])@.contains(0) && keys[j]@.len() > 0 && values@[j] >= 0,
        forall|j: int| 0 < j < keys.len() ==> !words::less((#[trigger] keys[j])@, keys[j - 1]@),
    ensures
        res matches Err(BuildError::Message(text)) ==> text@ == "Failed to modify unit: too large offset"@,
        (forall|j: int| 0 <= j < keys.len() ==> (#[trigger] keys[j])@.len() < m) && keys.len() * m < 2097152 ==> res is Ok,
{
    let seqs = keyset::key_seqs(keys);
    let n = keys.len() as int;
    assert forall|j: int| 0 <= j < n implies !(#[trigger] seqs[j]).contains(0) && seqs[j].len() > 0 && values@[j]
        >= 0 by {
        assert(!keys[j]@.contains(0));
    }
    assert forall|j: int| 0 < j < n implies !words::less(#[trigger] seqs[j], seqs[j - 1]) by {
        assert(!words::less(keys[j]@, keys[j - 1]@));
    }
    lemma_good(seqs, values@, n);
    if forall|j: int| 0 <= j < keys.len() ==> (#[trigger] keys[j])@.len() < m {
        assert forall|j: int| 0 <= j < seqs.len() implies (#[trigger] seqs[j]).len() < m by {
            assert(keys[j]@.len() < m);
        }
        lemma_size(seqs, m, n);
    }
}

/// How large the tree of some keys is at most.
pub proof fn lemma_size(seqs: Seq<Seq<u8>>, m: nat, n: int)
    requires
        0 <= n <= seqs.len(),
        forall|j: int| 0 <= j < seqs.len() ==> (#[trigger] seqs[j]).len() < m,
    ensures
        words::trie_size(seqs, n) <= n * m,
    decreases n,
{
    if n > 0 {
        lemma_size(seqs, m, n - 1);
        assert(seqs[n - 1].len() < m);
        if n > 1 {
            words::lemma_lcp(seqs[n - 2].push(0), seqs[n - 1].push(0));
        }
        assert((n - 1) * m + m == n * m) by (nonlinear_arith);
    }
}

/// What an error of keys without values says of them.
spec fn reason(keys: Seq<Seq<u8>>, values: Seq<i32>, e: Seq<char>) -> bool {
    ||| {
        &&& e == "Failed to build double-array: invalid null character"@
        &&& exists|i: int| 0 <= i < keys.len() && (#[trigger] keys[i]).contains(0)
    }
    ||| {
        &&& e == "Failed to build double-array: negative value"@
        &&& exists|i: int| 0 <= i < keys.len() && #[trigger] values[i] < 0
    }
    ||| {
        &&& e == "Failed to build double-array: inconsistent value for the same key"@
        &&& exists|i: int, j: int| 0 <= i < j < keys.len() && #[trigger] keys[i] == #[trigger] keys[j]
    }
    ||| {
        &&& e == "Failed to build double-array: wrong key order"@
        &&& exists|i: int| 0 < i < keys.len() && words::less(#[trigger] keys[i], keys[i - 1])
    }
}

proof fn lemma_scan_reason(keys: Seq<Seq<u8>>, values: Seq<i32>, begin: int, n: int, p: Seq<u8>)
    requires
        0 <= begin <= n <= keys.len(),
        forall|i: int| begin <= i < n ==> direct::has_prefix(#[trigger] keys[i], p),
        keyset::scan_error(keys, values, begin, n, p.len() as int) is Some,
    ensures
        reason(keys, values, keyset::scan_error(keys, values, begin, n, p.len() as int)->0),
    decreases n - begin,
{
    let d = p.len() as int;
    if keyset::scan_error(keys, values, begin, n - 1, d) is Some {
        lemma_scan_reason(keys, values, begin, n - 1, p);
    } else {
        let i = n - 1;
        let c = keyset::byte_at(keys, i, d);
        let k = keys[i];
        assert(direct::has_prefix(k, p));
        if c == 0 && d < k.len() {
            assert(k[d] == 0);
            assert(keys[i].contains(0));
        } else if c == 0 && values[i] < 0 {
            assert(values[i] < 0);
        } else if c == 0 && i > begin && keyset::byte_at(keys, begin, d) == 0 && values[begin] != values[i] {
            keyset::lemma_scan(keys, values, begin, i, d, begin);
            let j = keys[begin];
            assert(direct::has_prefix(j, p));
            assert(j.take(d) =~= j);
            assert(k.take(d) =~= k);
            assert(keys[begin] == keys[i]);
        } else {
            let j = keys[i - 1];
            assert(direct::has_prefix(j, p));
            let (x, y) = (k.skip(d), j.skip(d));
            assert(k =~= p + x);
            assert(j =~= p + y);
            assert(words::less(x, y));
            words::lemma_less_after(p, x, y);
            assert(words::less(keys[i], keys[i - 1]));
        }
    }
}

proof fn lemma_tree_reason(keys: Seq<Seq<u8>>, values: Seq<i32>, begin: int, end: int, p: Seq<u8>, height: nat)
    requires
        0 <= begin <= end <= keys.len(),
        forall|i: int| begin <= i < end ==> direct::has_prefix(#[trigger] keys[i], p),
        keyset::tree_error(keys, values, begin, end, p.len() as int, height) is Some,
    ensures
        reason(keys, values, keyset::tree_error(keys, values, begin, end, p.len() as int, height)->0),
    decreases height, 1int, end - begin,
{
    if keyset::scan_error(keys, values, begin, end, p.len() as int) is Some {
        lemma_scan_reason(keys, values, begin, end, p);
    } else {
        lemma_trees_reason(keys, values, begin, end, p, height);
    }
}

proof fn lemma_trees_reason(keys: Seq<Seq<u8>>, values: Seq<i32>, from: int, end: int, p: Seq<u8>, height: nat)
    requires
        0 <= from <= end <= keys.len(),
        forall|i: int| from <= i < end ==> direct::has_prefix(#[trigger] keys[i], p),
        keyset::trees_error(keys, values, from, end, p.len() as int, height) is Some,
    ensures
        reason(keys, values, keyset::trees_error(keys, values, from, end, p.len() as int, height)->0),
    decreases height, 0int, end - from,
{
    let d = p.len() as int;
    let c = keyset::byte_at(keys, from, d);
    if c == 0 {
        lemma_trees_reason(keys, values, from + 1, end, p, height);
    } else {
        keyset::lemma_run_end(keys, from, from + 1, end, d);
        let i = keyset::run_end(keys, from, from + 1, end, d);
        let q = p.push(c);
        assert forall|j: int| from <= j < i implies direct::has_prefix(#[trigger] keys[j], q) by {
            assert(keyset::byte_at(keys, j, d) == c);
            assert(direct::has_prefix(keys[j], p));
            assert(keys[j].take(d + 1) =~= keys[j].take(d).push(c));
        }
        if keyset::tree_error(keys, values, from, i, d + 1, (height - 1) as nat) is Some {
            lemma_tree_reason(keys, values, from, i, q, (height - 1) as nat);
        } else {
            lemma_trees_reason(keys, values, i, end, p, height);
        }
    }
}

/// Keys without values are built if they ascend strictly and have no zero bytes, and only then.
/// Else the error says what is wrong: ascending keys without zero bytes have one that is there
/// twice; different keys without zero bytes are in the wrong order; and keys that ascend
/// strictly have a zero byte. Only where there is much to place, there may be no room before
/// that is found.
#[verifier::rlimit(30)]
pub proof fn law_positions_refused(keys: Seq<&[u8]>, res: Result<Vec<u8>, BuildError>, m: nat)
    requires
        builder::can_build(keys, None),
        builder::build_outcome(keys, None, res),
        keys.len() <= 0x8000_0000,
    ensures
        ({
            let clean = forall|i: int| 0 <= i < keys.len() ==> !(#[trigger] keys[i])@.contains(0);
            let strict = forall|i: int| 0 < i < keys.len() ==> words::less(keys[i - 1]@, (#[trigger] keys[i])@);
            let ascending = forall|i: int| 0 < i < keys.len() ==> !words::less((#[trigger] keys[i])@, keys[i - 1]@);
            let distinct = forall|i: int, j: int|
                0 <= i < j < keys.len() ==> (#[trigger] keys[i])@ != (#[trigger] keys[j])@;
            let small = keys.len() * m < 2097152 && forall|j: int|
                0 <= j < keys.len() ==> (#[trigger] keys[j])@.len() < m;
            let other = (res matches Err(BuildError::Message(text)) && text@ != "Failed to modify unit: too large offset"@);
            &&& res is Ok ==> clean && strict
            &&& clean && strict && small ==> res is Ok
            &&& (small || other) ==> {
                &&& clean && strict ==> res is Ok
                &&& clean && ascending && !strict ==> (res matches Err(BuildError::Message(text))
                    && text@ == "Failed to build double-array: inconsistent value for the same key"@)
                &&& clean && distinct && !ascending ==> (res matches Err(BuildError::Message(text))
                    && text@ == "Failed to build double-array: wrong key order"@)
                &&& strict && !clean ==> (res matches Err(BuildError::Message(text))
                    && text@ == "Failed to build double-array: invalid null character"@)
            }
        }),
{
    let seqs = keyset::key_seqs(keys);
    let n = keys.len() as int;
    let values = keyset::value_seq(None, keys.len());
    let clean = forall|i: int| 0 <= i < keys.len() ==> !(#[trigger] keys[i])@.contains(0);
    let strict = forall|i: int| 0 < i < keys.len() ==> words::less(keys[i - 1]@, (#[trigger] keys[i])@);
    let ascending = forall|i: int| 0 < i < keys.len() ==> !words::less((#[trigger] keys[i])@, keys[i - 1]@);
    laws::law_direct_accepted(seqs);
    if clean {
        assert forall|i: int| 0 <= i < n implies !(#[trigger] seqs[i]).contains(0) by {
            assert(!keys[i]@.contains(0));
        }
    }
    if builder::zero_free(seqs) {
        assert forall|i: int| 0 <= i < n implies !(#[trigger] keys[i])@.contains(0) by {
            assert(!seqs[i].contains(0));
        }
    }
    if laws::strictly_ascending(seqs) {
        assert forall|i: int| 0 < i < n implies words::less(keys[i - 1]@, (#[trigger] keys[i])@) by {
            assert(words::less(seqs[i - 1], seqs[i]));
        }
    }
    if strict {
        assert forall|i: int| 0 < i < n implies words::less(seqs[i - 1], #[trigger] seqs[i]) && !words::less(
            seqs[i],
            seqs[i - 1],
        ) by {
            assert(words::less(keys[i - 1]@, keys[i]@));
            sort::lemma_less_irreflexive(seqs[i - 1], seqs[i]);
        }
        assert(ascending) by {
            assert forall|i: int| 0 < i < keys.len() implies !words::less((#[trigger] keys[i])@, keys[i - 1]@) by {
                assert(words::less(seqs[i - 1], seqs[i]));
            }
        }
    }
    if ascending {
        assert forall|i: int| 0 < i < n implies !words::less(#[trigger] seqs[i], seqs[i - 1]) by {
            assert(!words::less(keys[i]@, keys[i - 1]@));
        }
    }
    if forall|j: int| 0 <= j < keys.len() ==> (#[trigger] keys[j])@.len() < m {
        assert forall|j: int| 0 <= j < seqs.len() implies (#[trigger] seqs[j]).len() < m by {
            assert(keys[j]@.len() < m);
        }
        lemma_size(seqs, m, n);
    }
    if let Some(e) = keyset::build_error(seqs, None) {
        let p = Seq::<u8>::empty();
        assert forall|i: int| 0 <= i < n implies direct::has_prefix(#[trigger] seqs[i], p) by {
            assert(seqs[i].take(0) =~= p);
        }
        lemma_tree_reason(seqs, values, 0, n, p, keyset::max_len(seqs, n));
        assert(reason(seqs, values, e));
        if exists|i: int, j: int| 0 <= i < j < n && #[trigger] seqs[i] == #[trigger] seqs[j] {
            let (i, j) = choose|i: int, j: int| 0 <= i < j < n && #[trigger] seqs[i] == #[trigger] seqs[j];
            assert(keys[i]@ == keys[j]@);
            if strict {
                laws::lemma_strict(seqs, i, j);
                sort::lemma_less_irreflexive(seqs[i], seqs[j]);
            }
        }
    }
}

/// A function that hears of a build with values that is refused is called once for each key
/// before the first that is wrong.
pub proof fn law_values_told<F: Fn(usize, usize)>(
    keys: Seq<&[u8]>,
    values: &[i32],
    i: int,
    res: Result<Vec<u8>, BuildError>,
    p: Callback<F>,
    q: Callback<F>,
)
    requires
        builder::can_build(keys, Some(values)),
        builder::build_outcome(keys, Some(values), res),
        builder::build_told(p, keys, Some(values), res is Ok, q),
        0 <= i < keys.len(),
        forall|j: int| 0 <= j < i ==> !(#[trigger] keys[j])@.contains(0) && keys[j]@.len() > 0 && values@[j] >= 0,
        forall|j: int| 0 < j < i ==> !words::less((#[trigger] keys[j])@, keys[j - 1]@),
        values@[i] < 0 || keys[i]@.len() == 0 || (i > 0 && !keys[i]@.contains(0) && words::less(
            keys[i]@,
            keys[i - 1]@,
        )),
    ensures
        q.func == p.func,
        q.calls@ == p.calls@ + Seq::new(i as nat, |x: int| ((x + 1) as usize, (keys.len() + 1) as usize)),
{
    let seqs = keyset::key_seqs(keys);
    let n = keys.len() as int;
    assert forall|j: int| 0 <= j < i implies !(#[trigger] seqs[j]).contains(0) && seqs[j].len() > 0 && values@[j]
        >= 0 by {
        assert(!keys[j]@.contains(0));
    }
    assert forall|j: int| 0 < j < i implies !words::less(#[trigger] seqs[j], seqs[j - 1]) by {
        assert(!words::less(keys[j]@, keys[j - 1]@));
    }
    lemma_good(seqs, values@, i);
    law_values_refused(keys, values, res, i, 0);
    let k = keys[i]@;
    if i > 0 {
        let j = keys[i - 1]@;
        assert(!j.contains(0));
        if !k.contains(0) {
            laws::lemma_less_closed(j, k);
        }
    }
    assert(words::sequence_error(seqs, values@, i + 1) is Some);
    words::lemma_accepted(seqs, values@, i, n);
    progress::law_calls(p, i, n + 1);
}

/// A function that hears of a build with values for which there is no room is called once for
/// each key.
pub proof fn law_no_room_told<F: Fn(usize, usize)>(
    keys: Seq<&[u8]>,
    values: &[i32],
    e: BuildError,
    p: Callback<F>,
    q: Callback<F>,
)
    requires
        builder::can_build(keys, Some(values)),
        builder::build_outcome(keys, Some(values), Err(e)),
        builder::build_told(p, keys, Some(values), false, q),
        forall|j: int|
            0 <= j < keys.len() ==> !(#[trigger] keys[j])@.contains(0) && keys[j]@.len() > 0 && values@[j] >= 0,
        forall|j: int| 0 < j < keys.len() ==> !words::less((#[trigger] keys[j])@, keys[j - 1]@),
    ensures
        q.func == p.func,
        q.calls@ == p.calls@ + Seq::new(keys.len(), |x: int| ((x + 1) as usize, (keys.len() + 1) as usize)),
{
    let seqs = keyset::key_seqs(keys);
    let n = keys.len() as int;
    assert forall|j: int| 0 <= j < n implies !(#[trigger] seqs[j]).contains(0) && seqs[j].len() > 0 && values@[j]
        >= 0 by {
        assert(!keys[j]@.contains(0));
    }
    assert forall|j: int| 0 < j < n implies !words::less(#[trigger] seqs[j], seqs[j - 1]) by {
        assert(!words::less(keys[j]@, keys[j - 1]@));
    }
    lemma_good(seqs, values@, n);
    progress::law_calls(p, n, n + 1);
}

/// What was told, as far as it concerns one of `n` keys.
spec fn told_of<F>(p: Callback<F>, q: Callback<F>, n: int) -> bool {
    &&& q.func == p.func
    &&& q.calls@.len() >= p.calls@.len()
    &&& q.calls@.take(p.calls@.len() as int) == p.calls@
    &&& forall|x: int|
        p.calls@.len() <= x < q.calls@.len() ==> 1 <= (#[trigger] q.calls@[x]).0 <= n && q.calls@[x].1 == n + 1
}

proof fn lemma_told_on<F>(p: Callback<F>, q: Callback<F>, r: Callback<F>, n: int)
    requires
        told_of(p, q, n),
        told_of(q, r, n),
    ensures
        told_of(p, r, n),
{
    let m = p.calls@.len() as int;
    assert(r.calls@.take(m) =~= q.calls@.take(m)) by {
        assert forall|x: int| 0 <= x < m implies r.calls@[x] == q.calls@[x] by {
            assert(r.calls@.take(q.calls@.len() as int)[x] == q.calls@[x]);
        }
    }
    assert forall|x: int| m <= x < r.calls@.len() implies 1 <= (#[trigger] r.calls@[x]).0 <= n && r.calls@[x].1 == n
        + 1 by {
        if x < q.calls@.len() {
            assert(r.calls@.take(q.calls@.len() as int)[x] == q.calls@[x]);
        }
    }
}

proof fn lemma_scan_told<F: Fn(usize, usize)>(
    q: Callback<F>,
    keys: Seq<Seq<u8>>,
    values: Seq<i32>,
    begin: int,
    n: int,
    depth: int,
)
    requires
        0 <= begin <= n <= keys.len() < usize::MAX,
    ensures
        told_of(q, direct::scan_told(q, keys, values, begin, n, depth), keys.len() as int),
    decreases n - begin,
{
    let r = direct::scan_told(q, keys, values, begin, n, depth);
    if n > begin {
        lemma_scan_told(q, keys, values, begin, n - 1, depth);
        let t = direct::scan_told(q, keys, values, begin, n - 1, depth);
        assert(told_of(t, r, keys.len() as int)) by {
            assert(r.calls@.take(t.calls@.len() as int) =~= t.calls@);
        }
        lemma_told_on(q, t, r, keys.len() as int);
    } else {
        assert(q.calls@.take(q.calls@.len() as int) =~= q.calls@);
    }
}

proof fn lemma_tree_told<F: Fn(usize, usize)>(
    q: Callback<F>,
    p: Plan,
    keys: Seq<Seq<u8>>,
    values: Seq<i32>,
    begin: int,
    end: int,
    depth: int,
    id: u32,
    height: nat,
)
    requires
        0 <= begin <= end <= keys.len() < usize::MAX,
    ensures
        told_of(q, direct::tree_told(q, p, keys, values, begin, end, depth, id, height), keys.len() as int),
    decreases height, 1int, end - begin,
{
    let r = direct::scan_told(q, keys, values, begin, end, depth);
    lemma_scan_told(q, keys, values, begin, end, depth);
    if keyset::scan_error(keys, values, begin, end, depth) is None {
        let labels = direct::labels_of(keys, begin, end, depth);
        if let Some((next, b)) = p.arrange(id, labels, direct::leaf_value(keys, values, begin, depth)) {
            lemma_trees_told(r, next, keys, values, begin, end, depth, b, height);
            lemma_told_on(
                q,
                r,
                direct::trees_told(r, next, keys, values, begin, end, depth, b, height),
                keys.len() as int,
            );
        }
    }
}

proof fn lemma_trees_told<F: Fn(usize, usize)>(
    q: Callback<F>,
    p: Plan,
    keys: Seq<Seq<u8>>,
    values: Seq<i32>,
    from: int,
    end: int,
    depth: int,
    b: u32,
    height: nat,
)
    requires
        0 <= from <= end <= keys.len() < usize::MAX,
    ensures
        told_of(q, direct::trees_told(q, p, keys, values, from, end, depth, b, height), keys.len() as int),
    decreases height, 0int, end - from,
{
    let c = keyset::byte_at(keys, from, depth);
    if from >= end || (c != 0 && height == 0) {
        assert(q.calls@.take(q.calls@.len() as int) =~= q.calls@);
    } else if c == 0 {
        lemma_trees_told(q, p, keys, values, from + 1, end, depth, b, height);
    } else {
        keyset::lemma_run_end(keys, from, from + 1, end, depth);
        let i = keyset::run_end(keys, from, from + 1, end, depth);
        let below = (height - 1) as nat;
        let id = unit::slot(b, c);
        let r = direct::tree_told(q, p, keys, values, from, i, depth + 1, id, below);
        lemma_tree_told(q, p, keys, values, from, i, depth + 1, id, below);
        if let Ok(next) = direct::tree_plan(p, keys, values, from, i, depth + 1, id, below) {
            lemma_trees_told(r, next, keys, values, i, end, depth, b, height);
            lemma_told_on(
                q,
                r,
                direct::trees_told(r, next, keys, values, i, end, depth, b, height),
                keys.len() as int,
            );
        }
    }
}

/// A function that hears of a build without values that fails is called with positions of keys,
/// counted from one, and the number of keys and one.
pub proof fn law_positions_told<F: Fn(usize, usize)>(
    keys: Seq<&[u8]>,
    e: BuildError,
    p: Callback<F>,
    q: Callback<F>,
)
    requires
        builder::can_build(keys, None),
        builder::build_outcome(keys, None, Err(e)),
        builder::build_told(p, keys, None, false, q),
    ensures
        q.func == p.func,
        q.calls@.len() >= p.calls@.len(),
        q.calls@.take(p.calls@.len() as int) == p.calls@,
        forall|x: int|
            p.calls@.len() <= x < q.calls@.len() ==> 1 <= (#[trigger] q.calls@[x]).0 <= keys.len() && q.calls@[x].1
                == keys.len() + 1,
{
    let seqs = keyset::key_seqs(keys);
    let n = keys.len() as int;
    if n == 0 {
        assert(q.calls@.take(q.calls@.len() as int) =~= q.calls@);
    } else {
        lemma_tree_told(
            p,
            plan::planted(),
            seqs,
            keyset::value_seq(None, keys.len()),
            0,
            n,
            0,
            0,
            keyset::max_len(seqs, n),
        );
    }
}

/// Keys can be built if there is a value for each, where there are values, and if they are not
/// too many.
pub proof fn law_can_build(keys: Seq<&[u8]>, values: Option<&[i32]>, m: nat)
    requires
        keys.len() < usize::MAX,
        values matches Some(v) ==> keys.len() <= v@.len(),
        values is Some ==> keys.len() * m < 1073741824,
        values is Some ==> forall|j: int| 0 <= j < keys.len() ==> (#[trigger] keys[j])@.len() < m,
    ensures
        builder::can_build(keys, values),
{
    if let Some(v) = values {
        let seqs = keyset::key_seqs(keys);
        assert forall|j: int| 0 <= j < seqs.len() implies (#[trigger] seqs[j]).len() < m by {
            assert(keys[j]@.len() < m);
        }
        lemma_size(seqs, m, keys.len() as int);
        sketch::law_small_fits(seqs, v@);
    }
}

/// The array of some keys has blocks of 1024 bytes, one if the keys are few, and never more than
/// one and as many as the keys have bytes, with one more for each.
pub proof fn law_size(keys: Seq<&[u8]>, values: Option<&[i32]>, data: Vec<u8>, m: nat)
    requires
        builder::can_build(keys, values),
        builder::build_outcome(keys, values, Ok(data)),
        forall|j: int| 0 <= j < keys.len() ==> (#[trigger] keys[j])@.len() < m,
    ensures
        data@.len() % 1024 == 0,
        data@.len() > 0,
        keys.len() * m < 30 ==> data@.len() == 1024,
        data@.len() <= 1024 * (1 + keys.len() * m),
{
    let seqs = keyset::key_seqs(keys);
    assert forall|j: int| 0 <= j < seqs.len() implies (#[trigger] seqs[j]).len() < m by {
        assert(keys[j]@.len() < m);
    }
    lemma_size(seqs, m, keys.len() as int);
}

} // verus!
