//! What holds of the library as a whole.

use vstd::prelude::*;
use crate::array;
use crate::builder;
use crate::bytes;
use crate::codec;
use crate::direct;
use crate::error;
use crate::error::BuildError;
use crate::gram;
use crate::keyset;
use crate::nodes;
use crate::plan;
use crate::sketch;
use crate::sort;
use crate::trie;
use crate::trie::Dict;
use crate::unit;
use crate::words;

verus! {

/// Keys in ascending order; a key may occur more than once in a row.
pub open spec fn ascending(keys: Seq<Seq<u8>>) -> bool {
    forall|i: int| 0 < i < keys.len() ==> !words::less(#[trigger] keys[i], keys[i - 1])
}

/// Keys in ascending order, each once.
pub open spec fn strictly_ascending(keys: Seq<Seq<u8>>) -> bool {
    forall|i: int| 0 < i < keys.len() ==> words::less(keys[i - 1], #[trigger] keys[i])
}

/// No key is empty.
pub open spec fn nonempty(keys: Seq<Seq<u8>>) -> bool {
    forall|i: int| 0 <= i < keys.len() ==> (#[trigger] keys[i]).len() > 0
}

/// The first `n` values are not negative.
pub open spec fn nonnegative(values: Seq<i32>, n: int) -> bool {
    forall|i: int| 0 <= i < n ==> #[trigger] values[i] >= 0
}

/// A zero behind each of two keys without zeros does not change their order.
pub proof fn lemma_less_closed(j: Seq<u8>, k: Seq<u8>)
    requires
        !j.contains(0),
        !k.contains(0),
    ensures
        ({
            let (p, q) = (j.push(0), k.push(0));
            let l = words::lcp(p, q) as int;
            (l < p.len() && l < q.len() && q[l] < p[l]) == words::less(k, j)
        }),
    decreases j.len(),
{
    let (p, q) = (j.push(0), k.push(0));
    words::lemma_lcp(p, q);
    if j.len() > 0 {
        assert(j.contains(j[0]));
    }
    if k.len() > 0 {
        assert(k.contains(k[0]));
    }
    if j.len() > 0 && k.len() > 0 && j[0] == k[0] {
        let (x, y) = (j.drop_first(), k.drop_first());
        assert(!x.contains(0)) by {
            if x.contains(0) {
                let i = choose|i: int| 0 <= i < x.len() && x[i] == 0;
                assert(j[i + 1] == 0);
            }
        }
        assert(!y.contains(0)) by {
            if y.contains(0) {
                let i = choose|i: int| 0 <= i < y.len() && y[i] == 0;
                assert(k[i + 1] == 0);
            }
        }
        lemma_less_closed(x, y);
        assert(p.drop_first() =~= x.push(0));
        assert(q.drop_first() =~= y.push(0));
    } else if j.len() == 0 && k.len() == 0 {
        assert(p =~= q);
        assert(p.drop_first() =~= Seq::<u8>::empty());
        assert(q.drop_first() =~= Seq::<u8>::empty());
        reveal_with_fuel(words::lcp, 2);
    }
}

/// The path after some keys without zeros is that of the last of them.
proof fn lemma_clean_path(keys: Seq<Seq<u8>>, n: int)
    requires
        0 < n <= keys.len(),
        builder::zero_free(keys),
    ensures
        words::path_after(keys, n) == keys[n - 1].push(0),
    decreases n,
{
    let p = words::path_after(keys, n - 1);
    let q = keys[n - 1].push(0);
    words::lemma_lcp(p, q);
    if n > 1 {
        lemma_clean_path(keys, n - 1);
        let j = keys[n - 2];
        if words::lcp(p, q) == q.len() {
            let m = keys[n - 1].len() as int;
            assert(p[m] == q[m]);
            if m < j.len() {
                assert(j[m] == 0);
                assert(j.contains(0));
            }
            assert(p =~= q);
        }
    }
}

/// Keys without zero bytes can be inserted one after the other if and only if they are in
/// ascending order, none of them is empty, and no value is negative.
pub proof fn law_sequence_accepted(keys: Seq<Seq<u8>>, values: Seq<i32>)
    requires
        builder::zero_free(keys),
        keys.len() <= values.len(),
    ensures
        words::sequence_error(keys, values, keys.len() as int) is None <==> ascending(keys) && nonempty(keys)
            && nonnegative(values, keys.len() as int),
{
    let n = keys.len() as int;
    if ascending(keys) && nonempty(keys) && nonnegative(values, n) {
        lemma_accepted(keys, values, n);
    }
    if words::sequence_error(keys, values, n) is None {
        assert forall|i: int| 0 <= i < n implies (i > 0 ==> !words::less(#[trigger] keys[i], keys[i - 1])) && keys[i].len()
            > 0 && values[i] >= 0 by {
            lemma_was_accepted(keys, values, n, i);
        }
        assert forall|i: int| 0 <= i < n implies #[trigger] values[i] >= 0 by {
            let k = keys[i];
        }
    }
}

proof fn lemma_insert_error(keys: Seq<Seq<u8>>, i: int, value: i32)
    requires
        builder::zero_free(keys),
        0 <= i < keys.len(),
    ensures
        words::insert_error(words::path_after(keys, i), keys[i], value) is None <==> value >= 0 && keys[i].len() > 0
            && (i > 0 ==> !words::less(keys[i], keys[i - 1])),
{
    let k = keys[i];
    assert(!k.contains(0));
    assert forall|j: int| 0 <= j < k.len() implies #[trigger] k[j] != 0 by {
        assert(k.contains(k[j]));
    }
    if i > 0 {
        lemma_clean_path(keys, i);
        assert(!keys[i - 1].contains(0));
        lemma_less_closed(keys[i - 1], k);
    }
}

proof fn lemma_accepted(keys: Seq<Seq<u8>>, values: Seq<i32>, n: int)
    requires
        0 <= n <= keys.len(),
        keys.len() <= values.len(),
        builder::zero_free(keys),
        ascending(keys),
        nonempty(keys),
        nonnegative(values, keys.len() as int),
    ensures
        words::sequence_error(keys, values, n) is None,
    decreases n,
{
    if n > 0 {
        lemma_accepted(keys, values, n - 1);
        lemma_insert_error(keys, n - 1, values[n - 1]);
        assert(keys[n - 1].len() > 0);
    }
}

proof fn lemma_was_accepted(keys: Seq<Seq<u8>>, values: Seq<i32>, n: int, i: int)
    requires
        0 <= i < n <= keys.len(),
        builder::zero_free(keys),
        words::sequence_error(keys, values, n) is None,
    ensures
        i > 0 ==> !words::less(keys[i], keys[i - 1]),
        keys[i].len() > 0,
        values[i] >= 0,
    decreases n,
{
    if i < n - 1 {
        lemma_was_accepted(keys, values, n - 1, i);
    } else {
        lemma_insert_error(keys, i, values[i]);
    }
}

/// Sorting keys together with their values changes nothing of their dictionary: of equal
/// keys the first stays the first.
pub proof fn law_order_keeps_dict(keys: Seq<Seq<u8>>, values: Seq<i32>, order: Seq<usize>, k: Seq<u8>)
    requires
        keys.len() <= values.len(),
        keys.len() <= usize::MAX,
        sort::is_order(keys, order, 0, keys.len() as int),
    ensures
        words::dict_of(sort::permuted(keys, order), sort::picked(values, order))(k) == words::dict_of(keys, values)(k),
{
    let n = keys.len() as int;
    let sorted_keys = sort::permuted(keys, order);
    let sorted_values = sort::picked(values, order);
    if words::first_value(keys, values, n, k) is Some {
        let x = words::lemma_first_occurs(keys, values, n, k);
        assert(order.contains(x as usize));
        let i = choose|i: int| 0 <= i < order.len() && order[i] == x as usize;
        assert(sorted_keys[i] == k);
        assert forall|j: int| 0 <= j < i implies #[trigger] sorted_keys[j] != sorted_keys[i] by {
            if sorted_keys[j] == sorted_keys[i] {
                assert(sort::precedes(keys, order[j] as int, order[i] as int));
                sort::lemma_less_irreflexive(k, k);
                assert(keys[order[j] as int] == k);
                assert(order[j] < x);
            }
        }
        words::lemma_first_at(sorted_keys, sorted_values, n, i);
    } else {
        assert forall|j: int| 0 <= j < n implies #[trigger] sorted_keys[j] != k by {
            if sorted_keys[j] == k {
                words::lemma_occurs_some(keys, values, n, order[j] as int);
            }
        }
        words::lemma_first_none(sorted_keys, sorted_values, n, k);
    }
}

/// Sorted keys ascend.
pub proof fn law_order_ascends(keys: Seq<Seq<u8>>, order: Seq<usize>)
    requires
        sort::is_order(keys, order, 0, keys.len() as int),
    ensures
        ascending(sort::permuted(keys, order)),
{
    let s = sort::permuted(keys, order);
    assert forall|i: int| 0 < i < s.len() implies !words::less(#[trigger] s[i], s[i - 1]) by {
        assert(sort::precedes(keys, order[i - 1] as int, order[i] as int));
        sort::lemma_less_irreflexive(s[i - 1], s[i]);
    }
}

/// Of two keys in strictly ascending order the earlier is less.
pub proof fn lemma_strict(keys: Seq<Seq<u8>>, i: int, j: int)
    requires
        strictly_ascending(keys),
        0 <= i < j < keys.len(),
    ensures
        words::less(keys[i], keys[j]),
    decreases j - i,
{
    if i < j - 1 {
        lemma_strict(keys, i, j - 1);
        assert(words::less(keys[j - 1], keys[j]));
        sort::lemma_less_transitive(keys[i], keys[j - 1], keys[j]);
    }
}

/// The order of two keys that begin with `p` goes by what follows.
pub proof fn lemma_less_bytes(keys: Seq<Seq<u8>>, i: int, j: int, p: Seq<u8>)
    requires
        direct::has_prefix(keys[i], p),
        direct::has_prefix(keys[j], p),
    ensures
        words::less(keys[i], keys[j]) == words::less(keys[i].skip(p.len() as int), keys[j].skip(p.len() as int)),
        words::less(keys[i], keys[j]) ==> keyset::byte_at(keys, i, p.len() as int) <= keyset::byte_at(
            keys,
            j,
            p.len() as int,
        ),
        keyset::byte_at(keys, i, p.len() as int) < keyset::byte_at(keys, j, p.len() as int) ==> words::less(
            keys[i],
            keys[j],
        ),
{
    let d = p.len() as int;
    let (x, y) = (keys[i].skip(d), keys[j].skip(d));
    assert(keys[i] =~= p + x);
    assert(keys[j] =~= p + y);
    words::lemma_less_after(p, x, y);
}

proof fn lemma_scan_accepts(keys: Seq<Seq<u8>>, values: Seq<i32>, begin: int, end: int, p: Seq<u8>, n: int)
    requires
        direct::cover(keys, begin, end, p),
        strictly_ascending(keys),
        builder::zero_free(keys),
        nonnegative(values, keys.len() as int),
        begin <= n <= end,
    ensures
        keyset::scan_error(keys, values, begin, n, p.len() as int) is None,
    decreases n - begin,
{
    if n > begin {
        let d = p.len() as int;
        let i = n - 1;
        lemma_scan_accepts(keys, values, begin, end, p, i);
        assert(direct::has_prefix(keys[i], p));
        assert(direct::has_prefix(keys[begin], p));
        assert(!keys[i].contains(0));
        if keyset::byte_at(keys, i, d) == 0 {
            if d < keys[i].len() {
                assert(keys[i].contains(keys[i][d]));
            }
            assert(keys[i].take(d) =~= keys[i]);
            if i > begin && keyset::byte_at(keys, begin, d) == 0 {
                lemma_strict(keys, begin, i);
                lemma_less_bytes(keys, begin, i, p);
                assert(keys[i].skip(d).len() == 0);
            }
        }
        if i > begin {
            assert(direct::has_prefix(keys[i - 1], p));
            assert(words::less(keys[i - 1], keys[i]));
            lemma_less_bytes(keys, i - 1, i, p);
        }
    }
}

proof fn lemma_tree_accepts(
    keys: Seq<Seq<u8>>,
    values: Seq<i32>,
    begin: int,
    end: int,
    p: Seq<u8>,
    height: nat,
)
    requires
        direct::cover(keys, begin, end, p),
        strictly_ascending(keys),
        builder::zero_free(keys),
        nonnegative(values, keys.len() as int),
    ensures
        keyset::tree_error(keys, values, begin, end, p.len() as int, height) is None,
    decreases height, 1int, 0int,
{
    lemma_scan_accepts(keys, values, begin, end, p, end);
    lemma_trees_accept(keys, values, begin, end, p, begin, height);
}

proof fn lemma_trees_accept(
    keys: Seq<Seq<u8>>,
    values: Seq<i32>,
    begin: int,
    end: int,
    p: Seq<u8>,
    from: int,
    height: nat,
)
    requires
        direct::cover(keys, begin, end, p),
        strictly_ascending(keys),
        builder::zero_free(keys),
        nonnegative(values, keys.len() as int),
        keyset::scan_error(keys, values, begin, end, p.len() as int) is None,
        begin <= from <= end,
        begin < from < end ==> keyset::byte_at(keys, from, p.len() as int) == 0 || keyset::byte_at(
            keys,
            from - 1,
            p.len() as int,
        ) != keyset::byte_at(keys, from, p.len() as int),
    ensures
        keyset::trees_error(keys, values, from, end, p.len() as int, height) is None,
    decreases height, 0int, end - from,
{
    let d = p.len() as int;
    if from < end {
        let c = keyset::byte_at(keys, from, d);
        if c == 0 {
            lemma_trees_accept(keys, values, begin, end, p, from + 1, height);
        } else if height > 0 {
            let i = keyset::run_end(keys, from, from + 1, end, d);
            keyset::lemma_run_end(keys, from, from + 1, end, d);
            direct::lemma_cover_child(keys, values, begin, end, p, from, i);
            lemma_tree_accepts(keys, values, from, i, p.push(c), (height - 1) as nat);
            assert(keyset::byte_at(keys, i - 1, d) == c);
            lemma_trees_accept(keys, values, begin, end, p, i, height);
        }
    }
}

/// Neighbouring positions are different values, and the first position that is no value of its
/// own is negative.
pub proof fn lemma_positions(i: int)
    requires
        0 <= i < usize::MAX,
    ensures
        i as i32 != (i + 1) as i32,
        ((0x8000_0000int) as i32) < 0,
{
    let x = i as usize;
    let y = (i + 1) as usize;
    assert((y == x + 1 ==> (x as i32) != (y as i32)) && (0x8000_0000u32 as i32) < 0) by (bit_vector);
}

/// Keys without values that are accepted are in strictly ascending order and have no zero bytes.
pub proof fn law_direct_sorted(keys: Seq<Seq<u8>>)
    requires
        keys.len() <= usize::MAX,
        keyset::build_error(keys, None) is None,
    ensures
        strictly_ascending(keys),
        builder::zero_free(keys),
{
    let n = keys.len() as int;
    let p = Seq::<u8>::empty();
    let height = keyset::max_len(keys, n);
    if n > 0 {
        assert forall|i: int| 0 <= i < keys.len() implies ((0 <= i < n) <==> #[trigger] direct::has_prefix(
            keys[i],
            p,
        )) by {
            assert(keys[i].take(0) =~= p);
        }
        assert forall|i: int| 0 <= i < n implies (#[trigger] keys[i]).len() <= p.len() + height by {
            keyset::lemma_max_len(keys, n, i);
        }
        lemma_tree_sorted(keys, 0, n, p, height);
        assert forall|i: int| 0 <= i < n implies !(#[trigger] keys[i]).contains(0) by {
            assert(keys[i].skip(0) =~= keys[i]);
        }
    }
}

/// The keys of a range ascend strictly, and have no zero behind their first `depth` bytes.
pub open spec fn range_ok(keys: Seq<Seq<u8>>, begin: int, end: int, depth: int) -> bool {
    &&& forall|i: int| begin < i < end ==> words::less(keys[i - 1], #[trigger] keys[i])
    &&& forall|i: int| begin <= i < end ==> !(#[trigger] keys[i]).skip(depth).contains(0)
}

proof fn lemma_tree_sorted(keys: Seq<Seq<u8>>, begin: int, end: int, p: Seq<u8>, height: nat)
    requires
        direct::cover(keys, begin, end, p),
        keys.len() <= usize::MAX,
        keyset::tree_error(keys, keyset::value_seq(None, keys.len()), begin, end, p.len() as int, height) is None,
        forall|i: int| begin <= i < end ==> (#[trigger] keys[i]).len() <= p.len() + height,
    ensures
        range_ok(keys, begin, end, p.len() as int),
    decreases height, 1int, 0int,
{
    lemma_trees_sorted(keys, begin, end, p, begin, height);
}

proof fn lemma_trees_sorted(
    keys: Seq<Seq<u8>>,
    begin: int,
    end: int,
    p: Seq<u8>,
    from: int,
    height: nat,
)
    requires
        direct::cover(keys, begin, end, p),
        keys.len() <= usize::MAX,
        keyset::scan_error(keys, keyset::value_seq(None, keys.len()), begin, end, p.len() as int) is None,
        keyset::trees_error(keys, keyset::value_seq(None, keys.len()), from, end, p.len() as int, height) is None,
        forall|i: int| begin <= i < end ==> (#[trigger] keys[i]).len() <= p.len() + height,
        begin <= from <= end,
        begin < from < end ==> keyset::byte_at(keys, from, p.len() as int) == 0 || keyset::byte_at(
            keys,
            from - 1,
            p.len() as int,
        ) != keyset::byte_at(keys, from, p.len() as int),
    ensures
        range_ok(keys, from, end, p.len() as int),
        begin < from < end ==> words::less(keys[from - 1], keys[from]),
    decreases height, 0int, end - from,
{
    let d = p.len() as int;
    let values = keyset::value_seq(None, keys.len());
    if from < end {
        let c = keyset::byte_at(keys, from, d);
        assert(direct::has_prefix(keys[from], p));
        keyset::lemma_scan(keys, values, begin, end, d, from);
        if from > begin {
            assert(direct::has_prefix(keys[from - 1], p));
            keyset::lemma_scan_sorted(keys, values, begin, end, d, from - 1, from);
            if c == 0 {
                // a second key that ends here has another value
                keyset::lemma_scan_sorted(keys, values, begin, end, d, begin, begin + 1);
                keyset::lemma_scan_sorted(keys, values, begin, end, d, begin + 1, from);
                keyset::lemma_scan(keys, values, begin, end, d, begin + 1);
                lemma_positions(begin);
                assert(values[begin] != values[begin + 1]);
            }
            lemma_less_bytes(keys, from - 1, from, p);
        }
        if c == 0 {
            assert(keys[from].skip(d).len() == 0);
            lemma_trees_sorted(keys, begin, end, p, from + 1, height);
        } else {
            assert(height > 0);
            let i = keyset::run_end(keys, from, from + 1, end, d);
            keyset::lemma_run_end(keys, from, from + 1, end, d);
            direct::lemma_cover_child(keys, values, begin, end, p, from, i);
            lemma_tree_sorted(keys, from, i, p.push(c), (height - 1) as nat);
            assert(keyset::byte_at(keys, i - 1, d) == c);
            lemma_trees_sorted(keys, begin, end, p, i, height);
            assert forall|j: int| from <= j < i implies !(#[trigger] keys[j]).skip(d).contains(0) by {
                assert(keyset::byte_at(keys, j, d) == c);
                let x = keys[j].skip(d);
                if x.contains(0) {
                    let z = choose|z: int| 0 <= z < x.len() && x[z] == 0;
                    assert(keys[j].skip(d + 1)[z - 1] == 0);
                    assert(keys[j].skip(d + 1).contains(0));
                }
            }
        }
    }
}

/// Keys without values are accepted if and only if they are in strictly ascending order and
/// have no zero bytes. (There are at most as many as there are values.)
pub proof fn law_direct_accepted(keys: Seq<Seq<u8>>)
    requires
        keys.len() <= 0x8000_0000,
    ensures
        keyset::build_error(keys, None) is None <==> strictly_ascending(keys) && builder::zero_free(keys),
{
    let n = keys.len() as int;
    let values = keyset::value_seq(None, keys.len());
    let p = Seq::<u8>::empty();
    let height = keyset::max_len(keys, n);
    if n > 0 {
        assert forall|i: int| 0 <= i < keys.len() implies ((0 <= i < n) <==> #[trigger] direct::has_prefix(
            keys[i],
            p,
        )) by {
            assert(keys[i].take(0) =~= p);
        }
        if strictly_ascending(keys) && builder::zero_free(keys) {
            assert(nonnegative(values, n));
            lemma_tree_accepts(keys, values, 0, n, p, height);
        }
        if keyset::build_error(keys, None) is None {
            law_direct_sorted(keys);
        }
    }
}

/// Keys without values can be built if and only if they are in strictly ascending order and
/// have no zero bytes, unless there is no room for their array.
pub proof fn law_direct_built(keys: Seq<Seq<u8>>)
    requires
        keys.len() <= 0x8000_0000,
    ensures
        builder::outcome(keys, None) is Ok <==> strictly_ascending(keys) && builder::zero_free(keys)
            && builder::outcome(keys, None) != Err::<Seq<u32>, Seq<char>>(error::too_large()),
{
    let n = keys.len() as int;
    law_direct_accepted(keys);
    if n > 0 {
        direct::lemma_tree_plan(
            plan::planted(),
            keys,
            keyset::value_seq(None, keys.len()),
            0,
            n,
            0,
            0,
            keyset::max_len(keys, n),
        );
    }
}

/// Keys with values and without zero bytes can be built if and only if they are in ascending
/// order, none of them is empty, and no value is negative, unless there is no room for their
/// array.
pub proof fn law_sequence_built(keys: Seq<Seq<u8>>, values: &[i32])
    requires
        builder::zero_free(keys),
        keys.len() <= values@.len(),
    ensures
        builder::outcome(keys, Some(values)) is Ok <==> ascending(keys) && nonempty(keys) && nonnegative(
            values@,
            keys.len() as int,
        ) && builder::outcome(keys, Some(values)) != Err::<Seq<u32>, Seq<char>>(error::too_large()),
{
    law_sequence_accepted(keys, values@);
}

/// Builds of the same keys and values give the same result, whoever hears of their progress.
pub proof fn law_same_result(
    keys: Seq<&[u8]>,
    values: Option<&[i32]>,
    x: Result<Vec<u8>, BuildError>,
    y: Result<Vec<u8>, BuildError>,
)
    requires
        builder::build_outcome(keys, values, x),
        builder::build_outcome(keys, values, y),
    ensures
        match (x, y) {
            (Ok(a), Ok(b)) => a@ == b@,
            (Err(e), Err(f)) => e.text() == f.text(),
            _ => false,
        },
{
    if let (Ok(a), Ok(b)) = (x, y) {
        bytes::lemma_same_words(a@, b@);
    }
}

/// The values that a build gives to the keys.
pub open spec fn values_of(keys: Seq<Seq<u8>>, values: Option<&[i32]>) -> Seq<i32> {
    keyset::value_seq(values, keys.len())
}

/// A build stands for its keys: there are no values, or no key has a zero byte.
pub open spec fn faithful(keys: Seq<Seq<u8>>, values: Option<&[i32]>) -> bool {
    values is None || builder::zero_free(keys)
}

/// A value that is read is not negative, so that -1 and -2 are no values.
pub proof fn law_values_nonnegative(a: Seq<u32>, pos: int, k: Seq<u8>)
    requires
        trie::lookup(a, pos, k) is Some,
    ensures
        trie::lookup(a, pos, k)->0 >= 0,
{
    let p = trie::walk(a, pos, k)->0;
    let u = a[trie::base(a, p) as int];
    unit::law_fields(u, 0);
}

/// Reading a built array gives back every key with its value; a key that occurs more than
/// once has its first value.
pub proof fn law_key_found(a: Seq<u32>, keys: Seq<Seq<u8>>, values: Option<&[i32]>, i: int)
    requires
        builder::built(a, keys, values),
        faithful(keys, values),
        0 <= i < keys.len(),
        forall|j: int| 0 <= j < i ==> #[trigger] keys[j] != keys[i],
    ensures
        trie::lookup(a, 0, keys[i]) == Some(values_of(keys, values)[i]),
{
    builder::lemma_built(a, keys, values);
    words::lemma_first_at(keys, values_of(keys, values), keys.len() as int, i);
}

/// Reading a built array gives nothing for any other key.
pub proof fn law_other_key_absent(a: Seq<u32>, keys: Seq<Seq<u8>>, values: Option<&[i32]>, k: Seq<u8>)
    requires
        builder::built(a, keys, values),
        faithful(keys, values),
        !keys.contains(k),
    ensures
        trie::lookup(a, 0, k) is None,
{
    assert forall|i: int| 0 <= i < keys.len() implies #[trigger] keys[i] != k by {
        if keys[i] == k {
            assert(keys.contains(k));
        }
    }
    builder::lemma_built(a, keys, values);
    words::lemma_first_none(keys, values_of(keys, values), keys.len() as int, k);
}

/// Keys with values and zero bytes are stored up to their first zero byte. A key without
/// zero bytes keeps its value, unless an earlier key was cut to it.
pub proof fn law_cut_key_found(a: Seq<u32>, keys: Seq<Seq<u8>>, values: &[i32], i: int)
    requires
        builder::built(a, keys, Some(values)),
        0 <= i < keys.len(),
        forall|j: int| 0 <= j < i ==> words::cut(#[trigger] keys[j]) != words::cut(keys[i]),
    ensures
        trie::lookup(a, 0, words::cut(keys[i])) is Some,
        !keys[i].contains(0) ==> trie::lookup(a, 0, keys[i]) == Some(values@[i]),
{
    let short = builder::cut_keys(keys);
    let kept = builder::lemma_kept(a, keys, values);
    assert forall|j: int| 0 <= j < i implies #[trigger] short[j] != short[i] by {
        assert(words::cut(keys[j]) != words::cut(keys[i]));
    }
    words::lemma_first_at(short, kept, keys.len() as int, i);
    if !keys[i].contains(0) {
        words::lemma_cut_whole(keys[i]);
    }
}

/// Reading an array of keys with values gives nothing for what no key was cut to.
pub proof fn law_cut_key_absent(a: Seq<u32>, keys: Seq<Seq<u8>>, values: &[i32], k: Seq<u8>)
    requires
        builder::built(a, keys, Some(values)),
        forall|i: int| 0 <= i < keys.len() ==> words::cut(#[trigger] keys[i]) != k,
    ensures
        trie::lookup(a, 0, k) is None,
{
    let short = builder::cut_keys(keys);
    let kept = builder::lemma_kept(a, keys, values);
    assert forall|i: int| 0 <= i < keys.len() implies #[trigger] short[i] != k by {
        assert(words::cut(keys[i]) != k);
    }
    words::lemma_first_none(short, kept, keys.len() as int, k);
}

/// Whether one of the keys begins with `k`.
pub open spec fn some_begins(keys: Seq<Seq<u8>>, k: Seq<u8>) -> bool {
    exists|i: int| 0 <= i < keys.len() && #[trigger] direct::has_prefix(keys[i], k)
}

proof fn lemma_begins(keys: Seq<Seq<u8>>, values: Seq<i32>, k: Seq<u8>)
    ensures
        trie::begins(words::dict_of(keys, values), k) <==> some_begins(keys, k),
{
    let d = words::dict_of(keys, values);
    let n = keys.len() as int;
    if trie::begins(d, k) {
        let rest = choose|rest: Seq<u8>| (#[trigger] d(k + rest)) is Some;
        let i = words::lemma_first_occurs(keys, values, n, k + rest);
        assert(keys[i].take(k.len() as int) =~= k);
        assert(direct::has_prefix(keys[i], k));
    }
    if some_begins(keys, k) {
        let i = choose|i: int| 0 <= i < keys.len() && #[trigger] direct::has_prefix(keys[i], k);
        let rest = keys[i].skip(k.len() as int);
        assert(k + rest =~= keys[i]);
        words::lemma_occurs_some(keys, values, n, i);
        assert(d(k + rest) is Some);
    }
}

/// In a built array with keys, exactly the beginnings of keys can be followed.
pub proof fn law_prefix_followed(a: Seq<u32>, keys: Seq<Seq<u8>>, values: Option<&[i32]>, k: Seq<u8>)
    requires
        builder::built(a, keys, values),
        faithful(keys, values),
        keys.len() > 0,
    ensures
        trie::walk(a, 0, k) is Some <==> some_begins(keys, k),
{
    let d = words::dict_of(keys, values_of(keys, values));
    builder::lemma_built(a, keys, values);
    assert(trie::walk(a, 0, k) is Some <==> trie::begins(d, k));
    lemma_begins(keys, values_of(keys, values), k);
}

/// Following a key from the root of a built array gives its value if it is one of the keys,
/// -1 if it is only the beginning of one, and -2 otherwise.
pub proof fn law_traverse_outcome(a: Seq<u32>, keys: Seq<Seq<u8>>, values: Option<&[i32]>, k: Seq<u8>)
    requires
        builder::built(a, keys, values),
        faithful(keys, values),
        keys.len() > 0,
    ensures
        array::outcome(a, 0, k) == (match words::dict_of(keys, values_of(keys, values))(k) {
            Some(v) => v as int,
            None => if some_begins(keys, k) {
                -1
            } else {
                -2
            },
        }),
        words::dict_of(keys, values_of(keys, values))(k) is Some <==> keys.contains(k),
{
    let vals = values_of(keys, values);
    let n = keys.len() as int;
    builder::lemma_built(a, keys, values);
    law_prefix_followed(a, keys, values, k);
    array::lemma_matched(a, 0, k);
    assert(k.take(k.len() as int) =~= k);
    assert(trie::lookup(a, 0, k) == words::dict_of(keys, vals)(k));
    if words::first_value(keys, vals, n, k) is Some {
        let i = words::lemma_first_occurs(keys, vals, n, k);
        assert(keys[i] == k);
    }
    if keys.contains(k) {
        let i = choose|i: int| 0 <= i < keys.len() && keys[i] == k;
        words::lemma_occurs_some(keys, vals, n, i);
    }
}

/// The matches of a search from the node that `c` leads to: a prefix of `w` is among them if
/// and only if `c` with that prefix is a key of the dictionary, and then with its value.
pub open spec fn matches_are(found: Seq<(i32, int)>, d: Dict, c: Seq<u8>, w: Seq<u8>) -> bool {
    &&& forall|v: i32, m: int|
        #[trigger] found.contains((v, m)) <==> 0 < m <= w.len() && d(c + w.take(m)) == Some(v)
    &&& forall|i: int, j: int|
        #![trigger found[i], found[j]]
        0 <= i < j < found.len() ==> found[i].1 < found[j].1
}

proof fn lemma_matches(a: Seq<u32>, d: Dict, c: Seq<u8>, p: int, w: Seq<u8>, n: int)
    requires
        trie::reads_as(a, d),
        trie::walk(a, 0, c) == Some(p),
        0 <= n <= w.len(),
    ensures
        matches_are(array::prefix_matches(a, p, w, n), d, c, w.take(n)),
    decreases n,
{
    let found = array::prefix_matches(a, p, w, n);
    if n > 0 {
        let before = array::prefix_matches(a, p, w, n - 1);
        lemma_matches(a, d, c, p, w, n - 1);
        trie::lemma_walk_concat(a, 0, c, w.take(n));
        assert(trie::lookup(a, p, w.take(n)) == trie::lookup(a, 0, c + w.take(n)));
        assert(w.take(n).take(n) =~= w.take(n));
        assert forall|v: i32, m: int| #[trigger] found.contains((v, m)) <==> 0 < m <= n && d(c + w.take(n).take(m))
            == Some(v) by {
            if 0 < m <= n - 1 {
                assert(w.take(n).take(m) =~= w.take(n - 1).take(m));
            }
            assert(before.contains((v, m)) <==> 0 < m <= n - 1 && d(c + w.take(n - 1).take(m)) == Some(v));
            if before.contains((v, m)) {
                let i = choose|i: int| 0 <= i < before.len() && before[i] == (v, m);
                assert(found[i] == (v, m));
            }
            if found.contains((v, m)) {
                let i = choose|i: int| 0 <= i < found.len() && found[i] == (v, m);
                if i < before.len() {
                    assert(before[i] == (v, m));
                    assert(before.contains((v, m)));
                }
            }
            if m == n && d(c + w.take(n).take(m)) == Some(v) {
                assert(found[found.len() - 1] == (v, m));
            }
        }
        assert forall|i: int, j: int| #![trigger found[i], found[j]] 0 <= i < j < found.len() implies found[i].1
            < found[j].1 by {
            if j < before.len() {
                assert(before[i].1 < before[j].1);
            } else {
                assert(before[i] == found[i]);
                assert(before.contains(before[i]));
                assert(before.contains((found[i].0, found[i].1)));
            }
        }
    } else {
        assert forall|v: i32, m: int| !#[trigger] found.contains((v, m)) by {}
    }
}

/// The common prefix search from the root of a built array finds exactly the keys, except
/// the empty one, with which the given key begins, the shortest first.
pub proof fn law_prefix_search(a: Seq<u32>, keys: Seq<Seq<u8>>, values: Option<&[i32]>, k: Seq<u8>)
    requires
        builder::built(a, keys, values),
        faithful(keys, values),
    ensures
        matches_are(
            array::prefix_matches(a, 0, k, k.len() as int),
            words::dict_of(keys, values_of(keys, values)),
            Seq::empty(),
            k,
        ),
{
    builder::lemma_built(a, keys, values);
    lemma_matches(a, words::dict_of(keys, values_of(keys, values)), Seq::empty(), 0, k, k.len() as int);
    assert(k.take(k.len() as int) =~= k);
}

/// Only beginnings of keys can be followed.
proof fn lemma_walk_len(a: Seq<u32>, keys: Seq<Seq<u8>>, values: Seq<i32>)
    requires
        builder::holds(a, words::dict_of(keys, values), true),
    ensures
        forall|k: Seq<u8>|
            (#[trigger] trie::walk(a, 0, k)) is Some ==> k.len() <= keyset::max_len(keys, keys.len() as int),
{
    let n = keys.len() as int;
    let d = words::dict_of(keys, values);
    assert forall|k: Seq<u8>| (#[trigger] trie::walk(a, 0, k)) is Some implies k.len() <= keyset::max_len(keys, n) by {
        assert(trie::begins(d, k));
        lemma_begins(keys, values, k);
        let i = choose|i: int| 0 <= i < keys.len() && #[trigger] direct::has_prefix(keys[i], k);
        keyset::lemma_max_len(keys, n, i);
    }
}

/// What is listed of an array that holds some keys.
pub proof fn lemma_listing(a: Seq<u32>, keys: Seq<Seq<u8>>, values: Seq<i32>)
    requires
        builder::holds(a, words::dict_of(keys, values), true),
        a.len() <= u32::MAX,
    ensures
        array::finite(a, 0, keyset::max_len(keys, keys.len() as int)),
        forall|k: Seq<u8>| #[trigger] array::entry(a, 0, k) == words::dict_of(keys, values)(k),
{
    let n = keys.len() as int;
    let d = words::dict_of(keys, values);
    let height = keyset::max_len(keys, n);
    lemma_walk_len(a, keys, values);
    array::law_plain_listing(a, 0, height, Seq::empty());
    assert forall|k: Seq<u8>| #[trigger] array::entry(a, 0, k) == d(k) by {
        array::law_plain_listing(a, 0, height, k);
        assert(trie::lookup(a, 0, k) == d(k));
    }
}

/// A built array with keys can be listed, and the list holds exactly the keys with their
/// values.
pub proof fn law_listing(a: Seq<u32>, keys: Seq<Seq<u8>>, values: Option<&[i32]>)
    requires
        builder::built(a, keys, values),
        faithful(keys, values),
        keys.len() > 0,
    ensures
        array::finite(a, 0, keyset::max_len(keys, keys.len() as int)),
        forall|k: Seq<u8>|
            #[trigger] array::entry(a, 0, k) == words::dict_of(keys, values_of(keys, values))(k),
{
    builder::lemma_built(a, keys, values);
    lemma_listing(a, keys, values_of(keys, values));
}

/// An array that was built can be listed, also one without keys.
pub proof fn law_listable(a: Seq<u32>, keys: Seq<Seq<u8>>, values: Option<&[i32]>)
    requires
        builder::built(a, keys, values),
        builder::outcome(keys, values) == Ok::<Seq<u32>, Seq<char>>(a),
    ensures
        exists|height: nat| #[trigger] array::finite(a, 0, height),
{
    if keys.len() == 0 {
        law_empty_listing(a, keys, values);
        assert(array::finite(a, 0, 2));
    } else {
        match values {
            None => {
                lemma_listing(a, keys, keyset::value_seq(None, keys.len()));
            },
            Some(v) => {
                let kept = builder::lemma_kept(a, keys, v);
                lemma_listing(a, builder::cut_keys(keys), kept);
            },
        }
    }
}

/// The array without keys: the root, and fillers.
proof fn lemma_empty_units(a: Seq<u32>, keys: Seq<Seq<u8>>, values: Option<&[i32]>)
    requires
        keys.len() == 0,
        builder::outcome(keys, values) == Ok::<Seq<u32>, Seq<char>>(a),
    ensures
        a.len() == 256,
        a[0] == 1024,
        forall|i: int| 1 <= i < 256 ==> #[trigger] a[i] == (((i as u32) ^ 1) as u8) as u32,
{
    let p = plan::planted();
    assert(1u32 << 10 == 1024 && (0u32 << 2) | 0 | 0 == 0 && 0u32 >> 2 == 0) by (bit_vector);
    if let Some(v) = values {
        let f = sketch::fresh();
        let root = nodes::DawgNode { child: 0, sibling: 0, label: 0xFF, is_state: false, has_sibling: false };
        assert(f.fold_to(0) == f);
        assert(nodes::node_unit(root) == 0);
        assert(sketch::graph_of(keys, v@).units[0] == 0);
    }
    assert(a == plan::finished(p));
    assert(p.bases.contains(0));
    assert(!p.bases.contains(1));
    assert(p.spare(0, 256) == 1) by {
        assert(p.spare(0, 256) == p.spare(1, 256));
    }
    let q = p.seal(0);
    assert(q.seal_from(256) == q);
    assert(p.seal_from(0) == q);
    assert(a == q.units);
}

/// The array without keys has an empty list.
pub proof fn law_empty_listing(a: Seq<u32>, keys: Seq<Seq<u8>>, values: Option<&[i32]>)
    requires
        keys.len() == 0,
        builder::outcome(keys, values) == Ok::<Seq<u32>, Seq<char>>(a),
    ensures
        array::finite(a, 0, 2),
        forall|k: Seq<u8>| (#[trigger] array::entry(a, 0, k)) is None,
{
    lemma_empty_units(a, keys, values);
    assert forall|i: int| 0 <= i < 256 implies !unit::has_leaf_of(#[trigger] a[i]) by {
        let x = i as u32;
        assert(1024u32 & 0x100 == 0 && ((((x ^ 1) as u8) as u32) & 0x100) == 0) by (bit_vector);
    }
    assert forall|k: Seq<u8>| (#[trigger] array::entry(a, 0, k)) is None by {
        array::lemma_trail_walk(a, 0, k);
        if trie::walk(a, 0, k) is Some && k.len() > 0 {
            trie::lemma_walk_bounds(a, 0, k);
        }
    }
    assert forall|k: Seq<u8>| (#[trigger] array::trail(a, 0, k)) is Some implies k.len() <= 2 by {
        if k.len() >= 3 {
            let r = k.drop_first();
            let t = r.drop_first();
            assert(k =~= trie::cons(k[0], r));
            assert(r =~= trie::cons(r[0], t));
            assert(t =~= trie::cons(t[0], t.drop_first()));
            array::lemma_trail_cons(a, 0, k[0], r);
            lemma_empty_hop(a, 0, k[0]);
            let p = array::hop(a, 0, k[0])->0;
            array::lemma_trail_cons(a, p, r[0], t);
            lemma_empty_hop(a, p, r[0]);
            let q = array::hop(a, p, r[0])->0;
            array::lemma_trail_cons(a, q, t[0], t.drop_first());
            lemma_empty_hop(a, q, t[0]);
        }
    }
}

/// In the array without keys, the root leads to fillers, the first of which leads to the
/// others; these lead nowhere.
proof fn lemma_empty_hop(a: Seq<u32>, pos: int, c: u8)
    requires
        a.len() == 256,
        a[0] == 1024,
        forall|i: int| 1 <= i < 256 ==> #[trigger] a[i] == (((i as u32) ^ 1) as u8) as u32,
        0 <= pos < 256,
    ensures
        array::hop(a, pos, c) matches Some(p) ==> pos <= 1 && pos < p < 256,
{
    assert(0u32 ^ ((1024u32 >> 10) << ((1024u32 & 0x200) >> 6)) == 1 && 1024u32 & 0x8000_00FF == 0) by (bit_vector);
    let s = pos as u32;
    let b = trie::base(a, pos);
    if pos == 0 {
        assert(b == 1);
    } else {
        let u = (((s ^ 1) as u8) as u32);
        assert(a[pos] == u);
        assert(u <= 0xFF ==> (u >> 10) << ((u & 0x200) >> 6) == 0 && s ^ 0 == s) by (bit_vector);
        assert(b == s);
    }
    let t = unit::slot(b, c);
    if array::hop(a, pos, c) is Some {
        if t == 0 {
            assert(unit::label_of(a[0]) == 0);
            unit::lemma_slot_zero(b);
        } else {
            assert(a[t as int] == (((t ^ 1) as u8) as u32));
            assert(({
                let t = b ^ (c as u32);
                b < 256 && ((((t ^ 1) as u8) as u32) & 0x8000_00FF) == c as u32
            }) ==> b == 1) by (bit_vector);
        }
    }
}

/// The list of what is below an inner node of an array that was built, each key after some
/// prefix, holds what can be followed from there to a value.
pub proof fn law_inner_listing(
    a: Seq<u32>,
    keys: Seq<Seq<u8>>,
    values: Option<&[i32]>,
    c: Seq<u8>,
    pos: int,
    prefix: Seq<u8>,
    list: Seq<(Seq<u8>, i32)>,
    k: Seq<u8>,
    v: i32,
)
    requires
        builder::built(a, keys, values),
        faithful(keys, values),
        keys.len() > 0,
        trie::walk(a, 0, c) == Some(pos),
        array::lists(list, a, pos, prefix, 256),
    ensures
        array::sorted(list),
        list.contains((prefix + k, v)) <==> v >= 0 && array::outcome(a, pos, k) == v,
        forall|i: int|
            0 <= i < list.len() ==> direct::has_prefix((#[trigger] list[i]).0, prefix),
{
    let vals = values_of(keys, values);
    builder::lemma_built(a, keys, values);
    trie::lemma_walk_concat(a, 0, c, k);
    assert(trie::lookup(a, pos, k) == trie::lookup(a, 0, c + k));
    array::lemma_matched(a, pos, k);
    assert(k.take(k.len() as int) =~= k);
    if trie::lookup(a, pos, k) is Some {
        law_values_nonnegative(a, pos, k);
    }
    let height = keyset::max_len(keys, keys.len() as int);
    lemma_walk_len(a, keys, vals);
    assert forall|l: Seq<u8>| (#[trigger] trie::walk(a, pos, l)) is Some implies l.len() <= height by {
        trie::lemma_walk_concat(a, 0, c, l);
        assert(trie::walk(a, 0, c + l) is Some);
    }
    array::law_plain_listing(a, pos, height, k);
    assert(array::entry(a, pos, k) == trie::lookup(a, pos, k));
    let n = prefix.len() as int;
    if list.contains((prefix + k, v)) {
        let i = choose|i: int| 0 <= i < list.len() && list[i] == (prefix + k, v);
        assert(list[i].0.skip(n) =~= k);
    }
    assert forall|i: int| 0 <= i < list.len() implies direct::has_prefix((#[trigger] list[i]).0, prefix) by {
        let l = list[i].0.skip(n);
        assert(list[i].0 == prefix + l);
        assert((prefix + l).take(n) =~= prefix);
    }
}

/// Two sorted lists with the same elements are the same.
pub proof fn lemma_sorted_unique(s: Seq<(Seq<u8>, i32)>, t: Seq<(Seq<u8>, i32)>)
    requires
        array::sorted(s),
        array::sorted(t),
        forall|k: Seq<u8>, v: i32| #[trigger] s.contains((k, v)) <==> t.contains((k, v)),
    ensures
        s == t,
    decreases s.len(),
{
    if s.len() == 0 {
        if t.len() > 0 {
            assert(t.contains((t[0].0, t[0].1)));
            assert(s.contains((t[0].0, t[0].1)));
        }
        assert(s =~= t);
    } else {
        let x = s.last();
        assert(s.contains((x.0, x.1)));
        assert(t.contains((x.0, x.1)));
        let j = choose|j: int| 0 <= j < t.len() && t[j] == (x.0, x.1);
        let y = t.last();
        assert(t.contains((y.0, y.1)));
        assert(s.contains((y.0, y.1)));
        let i = choose|i: int| 0 <= i < s.len() && s[i] == (y.0, y.1);
        sort::lemma_less_irreflexive(x.0, y.0);
        sort::lemma_less_irreflexive(y.0, x.0);
        assert(x == y);
        let (p, q) = (s.drop_last(), t.drop_last());
        assert forall|k: Seq<u8>, v: i32| #[trigger] p.contains((k, v)) <==> q.contains((k, v)) by {
            if p.contains((k, v)) {
                let m = choose|m: int| 0 <= m < p.len() && p[m] == (k, v);
                assert(s[m] == (k, v));
                assert(s.contains((k, v)));
                let n = choose|n: int| 0 <= n < t.len() && t[n] == (k, v);
                assert(words::less(s[m].0, s[s.len() - 1].0));
                assert(n < t.len() - 1);
                assert(q[n] == (k, v));
            }
            if q.contains((k, v)) {
                let m = choose|m: int| 0 <= m < q.len() && q[m] == (k, v);
                assert(t[m] == (k, v));
                assert(t.contains((k, v)));
                assert(s.contains((k, v)));
                let n = choose|n: int| 0 <= n < s.len() && s[n] == (k, v);
                assert(words::less(t[m].0, t[t.len() - 1].0));
                assert(n < s.len() - 1);
                assert(p[n] == (k, v));
            }
        }
        lemma_sorted_unique(p, q);
        assert(s =~= p.push(x));
        assert(t =~= q.push(y));
    }
}

/// The list of a built array is what the array was built from, if no key occurs twice.
pub proof fn law_listing_gives_back(
    a: Seq<u32>,
    keys: Seq<Seq<u8>>,
    values: Option<&[i32]>,
    list: Seq<(Seq<u8>, i32)>,
)
    requires
        builder::built(a, keys, values),
        faithful(keys, values),
        keys.len() > 0,
        strictly_ascending(keys),
        array::sorted(list),
        forall|k: Seq<u8>, v: i32| #[trigger] list.contains((k, v)) <==> array::entry(a, 0, k) == Some(v),
    ensures
        list == Seq::new(keys.len(), |i: int| (keys[i], values_of(keys, values)[i])),
{
    let vals = values_of(keys, values);
    let n = keys.len() as int;
    let t = Seq::new(keys.len(), |i: int| (keys[i], vals[i]));
    law_listing(a, keys, values);
    assert forall|i: int, j: int| #![trigger t[i], t[j]] 0 <= i < j < t.len() implies words::less(t[i].0, t[j].0) by {
        lemma_strict(keys, i, j);
    }
    assert forall|k: Seq<u8>, v: i32| #[trigger] list.contains((k, v)) <==> t.contains((k, v)) by {
        assert(array::entry(a, 0, k) == words::dict_of(keys, vals)(k));
        if list.contains((k, v)) {
            let i = words::lemma_first_occurs(keys, vals, n, k);
            assert(t[i] == (k, v));
        }
        if t.contains((k, v)) {
            let i = choose|i: int| 0 <= i < t.len() && t[i] == (k, v);
            assert forall|j: int| 0 <= j < i implies #[trigger] keys[j] != keys[i] by {
                lemma_strict(keys, j, i);
                sort::lemma_less_irreflexive(keys[i], keys[i]);
            }
            words::lemma_first_at(keys, vals, n, i);
        }
    }
    lemma_sorted_unique(list, t);
}

/// A header that was written is read back as it was.
pub proof fn law_metadata_read_back(m: gram::GramDbMetadata, n: gram::GramDbMetadata, b: Seq<u8>)
    requires
        m.laid_out(b),
        n.laid_out(b),
    ensures
        n.format@ == m.format@,
        n.db_checksum == m.db_checksum,
        n.double_array_size == m.double_array_size,
        n.double_array_offset == m.double_array_offset,
{
}

/// A file that was made from an array is a database, and its array is that array.
pub proof fn law_image_opens(image: Seq<u8>, darts: Seq<u8>)
    requires
        gram::is_image(image, darts),
        darts.len() % 4 == 0,
        0 < darts.len() <= 0x8000_0000,
    ensures
        gram::open_error(image) is None,
        image.subrange(gram::array_start(image), gram::array_end(image)) == darts,
        gram::darts_of(image) == darts,
{
    reveal_strlit("Rime::Grammar/");
    reveal_strlit("Rime::Grammar/1.0");
    let head = gram::format_name() + Seq::new(15, |i: int| 0u8);
    assert(image.take(14) =~= gram::format_prefix()) by {
        assert forall|i: int| 0 <= i < 14 implies image[i] == gram::format_prefix()[i] by {
            assert(image.take(32)[i] == head[i]);
        }
    }
    assert(gram::array_end(image) == 44 + darts.len());
    assert(gram::darts_of(image) =~= darts);
}

/// A lookup in a database finds exactly the keys that consist of the context and a prefix of
/// the word, except the context itself, the shortest first.
pub proof fn law_lookup_matches(a: Seq<u32>, d: Dict, context: Seq<char>, word: Seq<char>)
    requires
        builder::holds(a, d, true),
    ensures
        matches_are(
            gram::lookup_matches(a, context, word),
            d,
            codec::encode_chars(context),
            codec::encode_chars(word),
        ),
{
    let c = codec::encode_chars(context);
    let w = codec::encode_chars(word);
    match trie::walk(a, 0, c) {
        Some(p) => {
            lemma_matches(a, d, c, p, w, w.len() as int);
            assert(w.take(w.len() as int) =~= w);
        },
        None => {
            let found = gram::lookup_matches(a, context, word);
            assert(!trie::begins(d, c));
            assert forall|v: i32, m: int| #[trigger] found.contains((v, m)) <==> 0 < m <= w.len() && d(
                c + w.take(m),
            ) == Some(v) by {
                if d(c + w.take(m)) is Some {
                    assert(trie::begins(d, c));
                }
            }
        },
    }
}

/// `image` is a database of these entries, as a build makes it.
pub open spec fn is_database(image: Seq<u8>, data: Seq<(String, i32)>) -> bool {
    let darts = gram::darts_of(image);
    &&& gram::is_image(image, darts)
    &&& darts.len() % 4 == 0
    &&& 0 < darts.len() <= 0x8000_0000
    &&& builder::holds(bytes::words(darts), words::dict_of(gram::encoded(data), gram::scaled(data)), true)
}

/// A database that was built can be opened, and a lookup in it finds exactly the entries
/// whose keys consist of the context and a prefix of the word, except the context itself,
/// the shortest first.
pub proof fn law_database_lookup(
    image: Seq<u8>,
    data: Seq<(String, i32)>,
    context: Seq<char>,
    word: Seq<char>,
)
    requires
        is_database(image, data),
    ensures
        gram::open_error(image) is None,
        ({
            let a = bytes::words(image.subrange(gram::array_start(image), gram::array_end(image)));
            matches_are(
                gram::lookup_matches(a, context, word),
                words::dict_of(gram::encoded(data), gram::scaled(data)),
                codec::encode_chars(context),
                codec::encode_chars(word),
            )
        }),
{
    let darts = gram::darts_of(image);
    law_image_opens(image, darts);
    law_lookup_matches(
        bytes::words(darts),
        words::dict_of(gram::encoded(data), gram::scaled(data)),
        context,
        word,
    );
}

/// A database that was built can be listed. The list holds every entry, of entries with equal
/// keys the first, and no others; and the key of an entry, if it consists of ASCII characters
/// and characters in the range with two bytes, decodes to what it was.
pub proof fn law_database_listing(image: Seq<u8>, data: Seq<(String, i32)>, i: int)
    requires
        is_database(image, data),
        0 <= i < data.len(),
        forall|j: int| 0 <= j < i ==> (#[trigger] gram::encoded(data)[j]) != gram::encoded(data)[i],
    ensures
        ({
            let a = bytes::words(image.subrange(gram::array_start(image), gram::array_end(image)));
            let key = data[i].0@;
            &&& exists|height: nat| #[trigger] array::finite(a, 0, height)
            &&& forall|k: Seq<u8>|
                (#[trigger] array::entry(a, 0, k)) is Some ==> gram::encoded(data).contains(k)
            &&& array::entry(a, 0, codec::encode_chars(key)) == Some(data[i].1)
            &&& (forall|x: int| 0 <= x < key.len() ==> codec::is_plain(#[trigger] key[x]))
                ==> codec::decode_bytes(codec::encode_chars(key)) == key
        }),
{
    let darts = gram::darts_of(image);
    let keys = gram::encoded(data);
    let values = gram::scaled(data);
    law_image_opens(image, darts);
    lemma_listing(bytes::words(darts), keys, values);
    words::lemma_first_at(keys, values, keys.len() as int, i);
    assert forall|k: Seq<u8>| (#[trigger] array::entry(bytes::words(darts), 0, k)) is Some implies keys.contains(k) by {
        let x = words::lemma_first_occurs(keys, values, keys.len() as int, k);
        assert(keys[x] == k);
    }
    let key = data[i].0@;
    assert(keys[i] == codec::encode_chars(key));
    if forall|x: int| 0 <= x < key.len() ==> codec::is_plain(#[trigger] key[x]) {
        codec::law_decode_encode(key);
    }
}

} // verus!
