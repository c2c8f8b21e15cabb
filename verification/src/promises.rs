//! What callers can rely on, in terms of what goes into the operations and what comes out.

use vstd::prelude::*;
use crate::array;
use crate::array::{DoubleArray, Match};
use crate::builder;
use crate::bytes;
use crate::direct;
use crate::error::BuildError;
use crate::keyset;
use crate::laws;
use crate::sort;
use crate::trie;
use crate::unit;
use crate::words;

verus! {

/// A key that was followed in part can be followed on from there: whoever follows its first
/// `n` bytes from a node and then the key from the position `n` on ends up as if the key had
/// been followed at once.
pub proof fn law_traverse_goes_on(
    a: Seq<u32>,
    key: Seq<u8>,
    start: usize,
    n: usize,
    part: (i32, usize),
    rest: (i32, usize, usize),
    whole: (i32, usize, usize),
)
    requires
        a.len() <= u32::MAX,
        start < a.len(),
        n <= key.len(),
        array::followed(a, key.take(n as int), start, 0, part.0, part.1, n),
        array::followed(a, key, part.1, n, rest.0, rest.1, rest.2),
        array::followed(a, key, start, 0, whole.0, whole.1, whole.2),
    ensures
        rest == whole,
{
    let s = start as int;
    let head = key.take(n as int);
    let tail = key.skip(n as int);
    assert(head.skip(0) =~= head);
    assert(key.skip(0) =~= key);
    array::lemma_matched(a, s, head);
    array::lemma_matched(a, s, key);
    assert(head.take(n as int) =~= head);
    let p = trie::walk(a, s, head)->0;
    if n > 0 {
        trie::lemma_walk_bounds(a, s, head);
    } else {
        assert(head =~= Seq::<u8>::empty());
    }
    assert(part.1 == p);
    array::lemma_matched(a, p, tail);
    let m = array::matched(a, s, key) as int;
    let k = array::matched(a, p, tail) as int;
    assert forall|x: int| 0 <= x <= tail.len() implies #[trigger] trie::walk(a, p, tail.take(x)) == trie::walk(
        a,
        s,
        key.take(n + x),
    ) by {
        trie::lemma_walk_concat(a, s, head, tail.take(x));
        assert(head + tail.take(x) =~= key.take(n + x));
    }
    // as far as the whole key can be followed
    assert(trie::walk(a, s, key.take(n as int)) is Some);
    assert(m >= n);
    assert(trie::walk(a, p, tail.take(m - n)) is Some) by {
        assert(trie::walk(a, s, key.take(n + (m - n))) is Some);
    }
    assert(k >= m - n);
    assert(trie::walk(a, s, key.take(n + k)) is Some) by {
        assert(trie::walk(a, p, tail.take(k)) is Some);
    }
    assert(n + k <= m);
    assert(tail.take(tail.len() as int) =~= tail);
    assert(key.take(key.len() as int) =~= key);
    if m == key.len() {
        assert(trie::walk(a, p, tail.take(tail.len() as int)) == trie::walk(a, s, key.take(n + tail.len())));
    }
    if k == 0 {
        assert(tail.take(0) =~= Seq::<u8>::empty());
        assert(trie::walk(a, p, tail.take(0)) == trie::walk(a, s, key.take(n + 0)));
        assert(m == n);
    } else {
        assert(trie::walk(a, p, tail.take(k)) == trie::walk(a, s, key.take(n + k)));
    }
}


/// The keys of an array that was built without values are numbered: following the key at any
/// position from the root goes through all of it and gives that position.
pub proof fn law_positions(
    keys: Seq<&[u8]>,
    data: Vec<u8>,
    i: int,
    res: i32,
    end_node: usize,
    end_pos: usize,
)
    requires
        builder::can_build(keys, None),
        builder::build_outcome(keys, None, Ok(data)),
        0 <= i < keys.len(),
        array::followed(bytes::words(data@), keys[i]@, 0, 0, res, end_node, end_pos),
    ensures
        res == i,
        end_pos == keys[i]@.len(),
{
    let seqs = keyset::key_seqs(keys);
    let a = bytes::words(data@);
    laws::law_direct_sorted(seqs);
    lemma_positions_found(a, seqs, i);
    lemma_few_positions(keys, data);
    assert(seqs[i].skip(0) =~= seqs[i]);
    array::lemma_matched(a, 0, seqs[i]);
    assert(seqs[i].take(seqs[i].len() as int) =~= seqs[i]);
}

/// There are no more keys without values than there are values.
pub proof fn lemma_few_positions(keys: Seq<&[u8]>, data: Vec<u8>)
    requires
        builder::can_build(keys, None),
        builder::build_outcome(keys, None, Ok(data)),
    ensures
        keys.len() <= 0x8000_0000,
{
    let seqs = keyset::key_seqs(keys);
    let a = bytes::words(data@);
    laws::law_direct_sorted(seqs);
    if keys.len() > 0x8000_0000 {
        lemma_positions_found(a, seqs, 0x8000_0000);
        laws::law_values_nonnegative(a, 0, seqs[0x8000_0000]);
        laws::lemma_positions(0);
    }
}

proof fn lemma_positions_found(a: Seq<u32>, seqs: Seq<Seq<u8>>, i: int)
    requires
        builder::built(a, seqs, None),
        laws::strictly_ascending(seqs),
        0 <= i < seqs.len(),
    ensures
        trie::lookup(a, 0, seqs[i]) == Some(i as i32),
{
    assert forall|j: int| 0 <= j < i implies #[trigger] seqs[j] != seqs[i] by {
        laws::lemma_strict(seqs, j, i);
        sort::lemma_less_irreflexive(seqs[i], seqs[i]);
    }
    laws::law_key_found(a, seqs, None, i);
}

/// Following any bytes from the root of an array that was built, with values from keys without
/// zero bytes, goes exactly as far as some key begins with them. It gives the value, or without
/// values the position, of the first key that equals them; if there is none, it gives -1 if
/// they are the beginning of a key, and else -2.
#[verifier::rlimit(30)]
pub proof fn law_values(
    keys: Seq<&[u8]>,
    values: Option<&[i32]>,
    data: Vec<u8>,
    k: Seq<u8>,
    n: int,
    res: i32,
    end_node: usize,
    end_pos: usize,
)
    requires
        builder::can_build(keys, values),
        0 <= n <= k.len(),
        builder::build_outcome(keys, values, Ok(data)),
        values is Some ==> forall|i: int| 0 <= i < keys.len() ==> !(#[trigger] keys[i]@).contains(0),
        array::followed(bytes::words(data@), k, 0, 0, res, end_node, end_pos),
    ensures
        forall|i: int|
            0 <= i < keys.len() && #[trigger] keys[i]@ == k && (forall|j: int|
                0 <= j < i ==> #[trigger] keys[j]@ != k) ==> res == (match values {
                Some(v) => v@[i] as int,
                None => i,
            }),
        (forall|i: int| 0 <= i < keys.len() ==> #[trigger] keys[i]@ != k) ==> res < 0,
        keys.len() > 0 ==> (res == -2 <==> !exists|i: int|
            0 <= i < keys.len() && #[trigger] begins_with(keys[i]@, k)),
        keys.len() > 0 ==> (res == -1 <==> (forall|i: int| 0 <= i < keys.len() ==> #[trigger] keys[i]@ != k)
            && exists|i: int| 0 <= i < keys.len() && #[trigger] begins_with(keys[i]@, k)),
        keys.len() > 0 ==> (n <= end_pos <==> exists|i: int|
            0 <= i < keys.len() && #[trigger] begins_with(keys[i]@, k.take(n))),
{
    let seqs = keyset::key_seqs(keys);
    let a = bytes::words(data@);
    if values is Some {
        assert forall|i: int| 0 <= i < seqs.len() implies !(#[trigger] seqs[i]).contains(0) by {
            assert(!keys[i]@.contains(0));
        }
    }
    lemma_answers(a, seqs, values, k, n, res, end_node, end_pos);
    assert forall|i: int|
        0 <= i < keys.len() && #[trigger] keys[i]@ == k && (forall|j: int|
            0 <= j < i ==> #[trigger] keys[j]@ != k) implies res == (match values {
        Some(v) => v@[i] as int,
        None => i,
    }) by {
        assert(seqs[i] == k);
        if values is None {
            law_positions(keys, data, i, res, end_node, end_pos);
        }
        assert forall|j: int| 0 <= j < i implies #[trigger] seqs[j] != k by {
            assert(keys[j]@ != k);
        }
    }
    lemma_same_begins(keys, k);
    if forall|i: int| 0 <= i < keys.len() ==> #[trigger] keys[i]@ != k {
        assert forall|i: int| 0 <= i < seqs.len() implies #[trigger] seqs[i] != k by {
            assert(keys[i]@ != k);
        }
    }
    if forall|i: int| 0 <= i < seqs.len() ==> #[trigger] seqs[i] != k {
        assert forall|i: int| 0 <= i < keys.len() implies #[trigger] keys[i]@ != k by {
            assert(seqs[i] != k);
        }
    }
    lemma_same_begins(keys, k.take(n));
}

/// Whether `s` begins with `p`.
pub open spec fn begins_with(s: Seq<u8>, p: Seq<u8>) -> bool {
    exists|rest: Seq<u8>| s == #[trigger] (p + rest)
}

proof fn lemma_begins_with(s: Seq<u8>, p: Seq<u8>)
    ensures
        begins_with(s, p) <==> direct::has_prefix(s, p),
{
    if begins_with(s, p) {
        let rest = choose|rest: Seq<u8>| s == #[trigger] (p + rest);
        assert(s.take(p.len() as int) =~= p);
    }
    if direct::has_prefix(s, p) {
        assert(s =~= p + s.skip(p.len() as int));
    }
}

proof fn lemma_same_begins(keys: Seq<&[u8]>, k: Seq<u8>)
    ensures
        laws::some_begins(keyset::key_seqs(keys), k) <==> exists|i: int|
            0 <= i < keys.len() && #[trigger] begins_with(keys[i]@, k),
{
    let seqs = keyset::key_seqs(keys);
    if laws::some_begins(seqs, k) {
        let i = choose|i: int| 0 <= i < seqs.len() && #[trigger] direct::has_prefix(seqs[i], k);
        lemma_begins_with(keys[i]@, k);
        assert(begins_with(keys[i]@, k));
    }
    if exists|i: int| 0 <= i < keys.len() && #[trigger] begins_with(keys[i]@, k) {
        let i = choose|i: int| 0 <= i < keys.len() && #[trigger] begins_with(keys[i]@, k);
        lemma_begins_with(keys[i]@, k);
        assert(direct::has_prefix(seqs[i], k));
    }
}

/// What is followed from the root.
proof fn lemma_from_root(a: Seq<u32>, k: Seq<u8>, res: i32, end_node: usize, end_pos: usize)
    requires
        0 < a.len() <= u32::MAX,
        array::followed(a, k, 0, 0, res, end_node, end_pos),
    ensures
        res == array::outcome(a, 0, k),
        end_pos == array::matched(a, 0, k),
        trie::lookup(a, 0, k) matches Some(v) ==> res == v && v >= 0,
        trie::lookup(a, 0, k) is None ==> res < 0,
        forall|n: int| 0 <= n <= k.len() ==> (n <= end_pos <==> (#[trigger] trie::walk(a, 0, k.take(n))) is Some),
{
    assert(k.skip(0) =~= k);
    assert(k.take(k.len() as int) =~= k);
    array::lemma_matched(a, 0, k);
    if trie::lookup(a, 0, k) is Some {
        laws::law_values_nonnegative(a, 0, k);
    }
}

proof fn lemma_begun(a: Seq<u32>, seqs: Seq<Seq<u8>>, values: Option<&[i32]>, k: Seq<u8>, res: i32)
    requires
        builder::built(a, seqs, values),
        laws::faithful(seqs, values),
        seqs.len() > 0,
        res == array::outcome(a, 0, k),
        trie::lookup(a, 0, k) matches Some(v) ==> res == v && v >= 0,
    ensures
        res == -2 <==> !laws::some_begins(seqs, k),
        res == -1 <==> (forall|i: int| 0 <= i < seqs.len() ==> #[trigger] seqs[i] != k) && laws::some_begins(seqs, k),
{
    laws::law_traverse_outcome(a, seqs, values, k);
    laws::law_prefix_followed(a, seqs, values, k);
    builder::lemma_built(a, seqs, values);
    assert(trie::lookup(a, 0, k) == words::dict_of(seqs, laws::values_of(seqs, values))(k));
    if seqs.contains(k) {
        let i = choose|i: int| 0 <= i < seqs.len() && seqs[i] == k;
        assert(seqs[i] == k);
        assert(direct::has_prefix(seqs[i], k)) by {
            assert(k.take(k.len() as int) =~= k);
        }
    } else {
        assert forall|i: int| 0 <= i < seqs.len() implies #[trigger] seqs[i] != k by {
            if seqs[i] == k {
                assert(seqs.contains(k));
            }
        }
    }
}

#[verifier::rlimit(30)]
proof fn lemma_answers(
    a: Seq<u32>,
    seqs: Seq<Seq<u8>>,
    values: Option<&[i32]>,
    k: Seq<u8>,
    n: int,
    res: i32,
    end_node: usize,
    end_pos: usize,
)
    requires
        builder::built(a, seqs, values),
        laws::faithful(seqs, values),
        array::followed(a, k, 0, 0, res, end_node, end_pos),
        0 <= n <= k.len(),
    ensures
        forall|i: int|
            0 <= i < seqs.len() && #[trigger] seqs[i] == k && (forall|j: int|
                0 <= j < i ==> #[trigger] seqs[j] != k) ==> res == laws::values_of(seqs, values)[i],
        (forall|i: int| 0 <= i < seqs.len() ==> #[trigger] seqs[i] != k) ==> res < 0,
        seqs.len() > 0 ==> (res == -2 <==> !laws::some_begins(seqs, k)),
        seqs.len() > 0 ==> (res == -1 <==> (forall|i: int| 0 <= i < seqs.len() ==> #[trigger] seqs[i] != k)
            && laws::some_begins(seqs, k)),
        seqs.len() > 0 ==> (n <= end_pos <==> laws::some_begins(seqs, k.take(n))),
{
    lemma_from_root(a, k, res, end_node, end_pos);
    if forall|i: int| 0 <= i < seqs.len() ==> #[trigger] seqs[i] != k {
        laws::law_other_key_absent(a, seqs, values, k);
    }
    assert forall|i: int|
        0 <= i < seqs.len() && #[trigger] seqs[i] == k && (forall|j: int|
            0 <= j < i ==> #[trigger] seqs[j] != k) implies res == laws::values_of(seqs, values)[i] by {
        laws::law_key_found(a, seqs, values, i);
    }
    if seqs.len() > 0 {
        lemma_begun(a, seqs, values, k, res);
        laws::law_prefix_followed(a, seqs, values, k.take(n));
    }
}

/// Bytes are an array if there are some, if their number is a multiple of four and if their
/// address is one too; else the error says which of these is not so. The units are the bytes by
/// four, the lowest first.
pub proof fn law_opened(data: Seq<u8>, address: usize, res: Result<DoubleArray, &'static str>)
    requires
        array::opened(data, address, res),
    ensures
        if data.len() % 4 != 0 {
            res matches Err(e) && e@ == "Darts data length is not a multiple of 4"@
        } else if address % 4 != 0 {
            res matches Err(e) && e@ == "Darts array data is not aligned to 4 bytes"@
        } else if data.len() == 0 {
            res matches Err(e) && e@ == "Darts array is empty"@
        } else {
            res matches Ok(a) && 4 * a.units().len() == data.len() && forall|i: int|
                0 <= i < a.units().len() ==> #[trigger] a.units()[i] == data[4 * i] + 256 * data[4 * i + 1] + 65536
                    * data[4 * i + 2] + 16777216 * data[4 * i + 3]
        },
{
    if let Ok(a) = res {
        assert forall|i: int| 0 <= i < a.units().len() implies #[trigger] a.units()[i] == data[4 * i] + 256 * data[4 * i
            + 1] + 65536 * data[4 * i + 2] + 16777216 * data[4 * i + 3] by {
            bytes::law_words(data, i);
        }
    }
}

/// A node at or behind the end of the array cannot be left. Of the number of a node only what
/// is below 2^32 counts.
pub proof fn law_traverse_outside(
    a: Seq<u32>,
    key: Seq<u8>,
    node: usize,
    pos: usize,
    res: i32,
    end_node: usize,
    end_pos: usize,
)
    requires
        a.len() <= usize::MAX,
        node as int % 0x1_0000_0000 >= a.len() as int % 0x1_0000_0000,
        array::followed(a, key, node, pos, res, end_node, end_pos),
    ensures
        res == -2,
        end_node == node,
        end_pos == pos,
{
    array::lemma_truncated(node);
    array::lemma_truncated(a.len() as usize);
}

/// At the end of the key the unit of the node decides: if its bit with the weight 256 is set,
/// the value is in the unit at its offset, and else there is none. The offset is the unit
/// without its lowest ten bits, times 256 if the bit with the weight 512 is set, and counts by
/// exclusive or.
pub proof fn law_traverse_end(
    a: Seq<u32>,
    key: Seq<u8>,
    node: usize,
    pos: usize,
    res: i32,
    end_node: usize,
    end_pos: usize,
)
    requires
        a.len() <= usize::MAX,
        (node as int % 0x1_0000_0000) < a.len() as int % 0x1_0000_0000,
        pos >= key.len(),
        array::followed(a, key, node, pos, res, end_node, end_pos),
    ensures
        end_node == node,
        end_pos == pos,
        ({
            let id = node as int % 0x1_0000_0000;
            let u = a[id];
            let offset = if (u / 512) % 2 == 1 {
                (u / 1024) * 256
            } else {
                (u / 1024) as int
            };
            let leaf = (id as u32) ^ (offset as u32);
            res == (if (u / 256) % 2 == 1 && leaf < a.len() as int % 0x1_0000_0000 {
                (a[leaf as int] % 0x8000_0000) as int
            } else {
                -1
            })
        }),
{
    array::lemma_truncated(node);
    array::lemma_truncated(a.len() as usize);
    let id = node as u32;
    let u = a[id as int];
    unit::law_fields(u, 0);
    unit::law_fields(a[(id ^ unit::offset_of(u)) as int], 0);
    assert(array::tail(key, pos as int) =~= Seq::<u8>::empty());
}

/// A byte of the key is followed to the unit at the offset of the node, by exclusive or with the
/// byte, if that unit is in the array, is below 2^31 and has the byte as its lowest one. From
/// there the rest of the key is followed; else this is where it ends.
#[verifier::rlimit(30)]
pub proof fn law_traverse_byte(
    a: Seq<u32>,
    key: Seq<u8>,
    node: usize,
    pos: usize,
    res: i32,
    end_node: usize,
    end_pos: usize,
)
    requires
        a.len() <= usize::MAX,
        (node as int % 0x1_0000_0000) < a.len() as int % 0x1_0000_0000,
        pos < key.len() <= usize::MAX,
        array::followed(a, key, node, pos, res, end_node, end_pos),
    ensures
        ({
            let id = node as int % 0x1_0000_0000;
            let u = a[id];
            let offset = if (u / 512) % 2 == 1 {
                (u / 1024) * 256
            } else {
                (u / 1024) as int
            };
            let c = key[pos as int];
            let next = (id as u32) ^ (offset as u32) ^ (c as u32);
            if next < a.len() as int % 0x1_0000_0000 && a[next as int] < 0x8000_0000 && a[next as int] % 256 == c {
                array::followed(a, key, next as usize, (pos + 1) as usize, res, end_node, end_pos)
            } else {
                res == -2 && end_node == node && end_pos == pos
            }
        }),
{
    array::lemma_truncated(node);
    array::lemma_truncated(a.len() as usize);
    let s = node as u32 as int;
    let u = a[s];
    let c = key[pos as int];
    unit::law_fields(u, c);
    let next = unit::slot(trie::base(a, s), c);
    unit::law_fields(a[next as int], c);
    let rest = key.skip(pos as int);
    let r = rest.drop_first();
    assert(r =~= key.skip(pos + 1));
    assert(rest =~= trie::cons(c, r));
    trie::lemma_walk_cons(a, s, c, r);
    if let Some(p) = trie::step(a, s, c) {
        let m = array::matched(a, p, r) as int;
        array::lemma_matched(a, p, r);
        assert(rest.take(m + 1) =~= trie::cons(c, r.take(m)));
        trie::lemma_walk_cons(a, s, c, r.take(m));
        if m == 0 {
            assert(r.take(0) =~= Seq::<u8>::empty());
        }
    }
}

/// What is followed from a node of the array on, as far as the result goes.
pub proof fn lemma_from_node(a: Seq<u32>, k: Seq<u8>, node: usize, res: i32, end_node: usize, end_pos: usize)
    requires
        node < a.len() <= u32::MAX,
        array::followed(a, k, node, 0, res, end_node, end_pos),
    ensures
        trie::lookup(a, node as int, k) == (if res >= 0 {
            Some(res)
        } else {
            None
        }),
        end_pos == k.len() <==> trie::walk(a, node as int, k) is Some,
        end_pos == k.len() ==> trie::walk(a, node as int, k) == Some(end_node as int),
        res >= -1 <==> end_pos == k.len(),
{
    assert(k.skip(0) =~= k);
    assert(k.take(k.len() as int) =~= k);
    array::lemma_matched(a, node as int, k);
    assert(trie::walk(a, node as int, k) is Some <==> k.len() <= array::matched(a, node as int, k));
    if trie::lookup(a, node as int, k) is Some {
        laws::law_values_nonnegative(a, node as int, k);
    }
}

/// The matches among the first bytes of a key.
proof fn lemma_matches(a: Seq<u32>, pos: int, key: Seq<u8>, n: int)
    requires
        0 <= n <= key.len(),
    ensures
        ({
            let s = array::prefix_matches(a, pos, key, n);
            &&& s.len() <= n
            &&& forall|i: int|
                0 <= i < s.len() ==> 0 < (#[trigger] s[i]).1 <= n && trie::lookup(a, pos, key.take(s[i].1)) == Some(
                    s[i].0,
                )
            &&& forall|i: int, j: int| 0 <= i < j < s.len() ==> (#[trigger] s[i]).1 < (#[trigger] s[j]).1
            &&& forall|m: int|
                0 < m <= n && (#[trigger] trie::lookup(a, pos, key.take(m))) is Some ==> exists|i: int|
                    0 <= i < s.len() && (#[trigger] s[i]).1 == m
        }),
    decreases n,
{
    if n > 0 {
        let t = array::prefix_matches(a, pos, key, n - 1);
        let s = array::prefix_matches(a, pos, key, n);
        lemma_matches(a, pos, key, n - 1);
        assert forall|m: int| 0 < m <= n && (#[trigger] trie::lookup(a, pos, key.take(m))) is Some implies exists|i: int|
            0 <= i < s.len() && (#[trigger] s[i]).1 == m by {
            if m == n {
                assert(s[s.len() - 1].1 == m);
            } else {
                let i = choose|i: int| 0 <= i < t.len() && (#[trigger] t[i]).1 == m;
                assert(s[i].1 == m);
            }
        }
    }
}

/// The common prefix search finds the beginnings of the key, from the shortest to the longest,
/// whose values following them gives. What there is no room for is still counted, and what there
/// is too much room for stays as it was.
pub proof fn law_search(
    a: Seq<u32>,
    key: Seq<u8>,
    node: usize,
    before: Seq<Match>,
    after: Seq<Match>,
    res: usize,
    m: int,
    value: i32,
    end_node: usize,
    end_pos: usize,
)
    requires
        node < a.len() <= u32::MAX,
        array::searched(a, key, node, before, after, res),
        0 < m <= key.len(),
        array::followed(a, key.take(m), node, 0, value, end_node, end_pos),
    ensures
        res <= key.len(),
        after.len() == before.len(),
        forall|i: int| res <= i < after.len() ==> #[trigger] after[i] == before[i],
        forall|i: int| 0 <= i < res && i < after.len() ==> 0 < (#[trigger] after[i]).length <= key.len(),
        forall|i: int, j: int|
            0 <= i < j < res && j < after.len() ==> (#[trigger] after[i]).length < (#[trigger] after[j]).length,
        forall|i: int|
            0 <= i < res && i < after.len() && (#[trigger] after[i]).length == m ==> value >= 0 && after[i].value
                == value,
        value >= 0 && res <= after.len() ==> exists|i: int| 0 <= i < res && (#[trigger] after[i]).length == m,
{
    let s = array::prefix_matches(a, node as int, key, key.len() as int);
    lemma_matches(a, node as int, key, key.len() as int);
    lemma_from_node(a, key.take(m), node, value, end_node, end_pos);
    assert forall|i: int| 0 <= i < res && i < after.len() implies 0 < (#[trigger] after[i]).length <= key.len() by {
        assert(0 < s[i].1);
    }
    assert forall|i: int, j: int| 0 <= i < j < res && j < after.len() implies (#[trigger] after[i]).length < (
    #[trigger] after[j]).length by {
        assert(s[i].1 < s[j].1);
    }
    assert forall|i: int| 0 <= i < res && i < after.len() && (#[trigger] after[i]).length == m implies value >= 0
        && after[i].value == value by {
        assert(s[i].1 == m);
    }
    if value >= 0 && res <= after.len() {
        assert(trie::lookup(a, node as int, key.take(m)) is Some);
        let i = choose|i: int| 0 <= i < s.len() && (#[trigger] s[i]).1 == m;
        assert(after[i].length == m);
    }
}

/// How many matches there are, and what they are, does not depend on how much room there is for
/// them. A node behind the end of the array has none.
pub proof fn law_search_room(
    a: Seq<u32>,
    key: Seq<u8>,
    node: usize,
    before: Seq<Match>,
    after: Seq<Match>,
    res: usize,
    other_before: Seq<Match>,
    other_after: Seq<Match>,
    other_res: usize,
)
    requires
        array::searched(a, key, node, before, after, res),
        array::searched(a, key, node, other_before, other_after, other_res),
    ensures
        res == other_res,
        forall|i: int|
            0 <= i < res && i < after.len() && i < other_after.len() ==> (#[trigger] after[i]).value
                == other_after[i].value && after[i].length == other_after[i].length,
        node >= a.len() ==> res == 0 && after == before,
{
    assert forall|i: int|
        0 <= i < res && i < after.len() && i < other_after.len() implies (#[trigger] after[i]).value
        == other_after[i].value && after[i].length == other_after[i].length by {
        assert(other_after[i] == other_after[i]);
    }
    if node >= a.len() {
        assert(after =~= before);
    }
}

/// The bytes that lead on from a node are listed in ascending order, with the nodes to which
/// following them leads.
pub proof fn law_branches(
    a: Seq<u32>,
    node: usize,
    list: Seq<(u8, usize)>,
    c: u8,
    res: i32,
    end_node: usize,
    end_pos: usize,
)
    requires
        node < a.len() <= 0x8000_0000,
        array::branches(a, node, list),
        array::followed(a, seq![c], node, 0, res, end_node, end_pos),
    ensures
        forall|i: int, j: int| 0 <= i < j < list.len() ==> (#[trigger] list[i]).0 < (#[trigger] list[j]).0,
        forall|p: usize| #[trigger] list.contains((c, p)) <==> end_pos == 1 && end_node == p,
{
    lemma_from_node(a, seq![c], node, res, end_node, end_pos);
    array::law_children(a, node as int, c, 0);
    assert forall|i: int, j: int| 0 <= i < j < list.len() implies (#[trigger] list[i]).0 < (#[trigger] list[j]).0 by {
        assert(array::children(a, node as int, 256)[i].0 < array::children(a, node as int, 256)[j].0);
    }
    array::lemma_matched(a, node as int, seq![c]);
    assert(seq![c].take(1) =~= seq![c]);
    assert(trie::walk(a, node as int, seq![c].take(1)) is Some <==> 1 <= array::matched(a, node as int, seq![c]));
    assert forall|p: usize| #[trigger] list.contains((c, p)) <==> end_pos == 1 && end_node == p by {
        array::law_children(a, node as int, c, p);
    }
}

/// A node behind the end of the array leads nowhere.
pub proof fn law_no_branches(a: Seq<u32>, node: usize, list: Seq<(u8, usize)>)
    requires
        node >= a.len(),
        array::branches(a, node, list),
    ensures
        list.len() == 0,
{
}

/// Following bytes from the root of an array that was built with values, from keys that may have
/// zero bytes: a key is stored up to its first zero byte. So a key without zero bytes gives its
/// value, unless an earlier key is the same up to its first zero byte; and only what a key is
/// up to its first zero byte gives a value.
#[verifier::rlimit(30)]
pub proof fn law_values_cut(
    keys: Seq<&[u8]>,
    values: &[i32],
    data: Vec<u8>,
    k: Seq<u8>,
    res: i32,
    end_node: usize,
    end_pos: usize,
)
    requires
        builder::can_build(keys, Some(values)),
        builder::build_outcome(keys, Some(values), Ok(data)),
        array::followed(bytes::words(data@), k, 0, 0, res, end_node, end_pos),
    ensures
        res >= 0 <==> !k.contains(0) && exists|i: int|
            0 <= i < keys.len() && (#[trigger] keys[i]@ == k || begins_with(keys[i]@, k.push(0))),
        forall|i: int|
            0 <= i < keys.len() && #[trigger] keys[i]@ == k && !k.contains(0) && (forall|j: int|
                0 <= j < i ==> #[trigger] keys[j]@ != k && !begins_with(keys[j]@, k.push(0))) ==> res == values@[i],
{
    let seqs = keyset::key_seqs(keys);
    let a = bytes::words(data@);
    lemma_from_root(a, k, res, end_node, end_pos);
    assert forall|i: int| 0 <= i < keys.len() implies (words::cut(#[trigger] seqs[i]) == k <==> !k.contains(0) && (
    keys[i]@ == k || begins_with(keys[i]@, k.push(0)))) by {
        lemma_cut(seqs[i], k);
    }
    if res >= 0 {
        if forall|i: int| 0 <= i < seqs.len() ==> words::cut(#[trigger] seqs[i]) != k {
            laws::law_cut_key_absent(a, seqs, values, k);
        }
        let i = choose|i: int| 0 <= i < seqs.len() && words::cut(#[trigger] seqs[i]) == k;
        assert(keys[i]@ == k || begins_with(keys[i]@, k.push(0)));
    }
    if !k.contains(0) && exists|i: int|
        0 <= i < keys.len() && (#[trigger] keys[i]@ == k || begins_with(keys[i]@, k.push(0))) {
        let i = choose|i: int|
            0 <= i < keys.len() && (#[trigger] keys[i]@ == k || begins_with(keys[i]@, k.push(0)));
        assert(words::cut(seqs[i]) == k);
        let f = lemma_first_cut(seqs, k, i);
        laws::law_cut_key_found(a, seqs, values, f);
    }
    assert forall|i: int|
        0 <= i < keys.len() && #[trigger] keys[i]@ == k && !k.contains(0) && (forall|j: int|
            0 <= j < i ==> #[trigger] keys[j]@ != k && !begins_with(keys[j]@, k.push(0))) implies res == values@[i] by {
        assert(words::cut(seqs[i]) == k);
        assert forall|j: int| 0 <= j < i implies words::cut(#[trigger] seqs[j]) != words::cut(seqs[i]) by {
            assert(keys[j]@ != k && !begins_with(keys[j]@, k.push(0)));
        }
        laws::law_cut_key_found(a, seqs, values, i);
    }
}

proof fn lemma_first_cut(seqs: Seq<Seq<u8>>, k: Seq<u8>, i: int) -> (f: int)
    requires
        0 <= i < seqs.len(),
        words::cut(seqs[i]) == k,
    ensures
        0 <= f <= i,
        words::cut(seqs[f]) == k,
        forall|j: int| 0 <= j < f ==> words::cut(#[trigger] seqs[j]) != k,
    decreases i,
{
    if exists|j: int| 0 <= j < i && words::cut(#[trigger] seqs[j]) == k {
        let j = choose|j: int| 0 <= j < i && words::cut(#[trigger] seqs[j]) == k;
        lemma_first_cut(seqs, k, j)
    } else {
        i
    }
}

proof fn lemma_cut(key: Seq<u8>, k: Seq<u8>)
    ensures
        words::cut(key) == k <==> !k.contains(0) && (key == k || begins_with(key, k.push(0))),
{
    let z = words::first_zero(key) as int;
    words::lemma_first_zero(key);
    lemma_begins_with(key, k.push(0));
    if words::cut(key) == k {
        if k.contains(0) {
            let i = choose|i: int| 0 <= i < k.len() && k[i] == 0;
            assert(key[i] == 0);
        }
        if z < key.len() {
            assert(key.take(z + 1) =~= k.push(0));
        } else {
            assert(key.take(z) =~= key);
        }
    }
    if !k.contains(0) && key == k {
        words::lemma_cut_whole(key);
    }
    if !k.contains(0) && begins_with(key, k.push(0)) {
        let n = k.len() as int;
        assert(key.take(n + 1)[n] == 0);
        assert forall|i: int| 0 <= i < n implies key[i] != 0 by {
            assert(key.take(n + 1)[i] == k[i]);
            assert(k.contains(k[i]));
        }
        words::lemma_first_zero_is(key, n as nat);
        assert(key.take(n) =~= k) by {
            assert forall|i: int| 0 <= i < n implies key[i] == k[i] by {
                assert(key.take(n + 1)[i] == k.push(0)[i]);
            }
        }
    }
}

} // verus!
