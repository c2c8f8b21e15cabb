//! Reading a double array.

use vstd::prelude::*;
use crate::bytes;
use crate::trie;
use crate::unit;
use crate::unit::DoubleArrayUnit;
use crate::words;

verus! {

/// A key that was found.
#[derive(Debug, Clone, Copy, Default)]
pub struct Match {
    /// The value of the key.
    pub value: i32,
    /// The length of the key.
    pub length: usize,
}

/// A double array in a slice of bytes.
pub struct DoubleArray<'a> {
    array: &'a [u8],
}

/// The bytes of `key` from `pos` on.
pub open spec fn tail(key: Seq<u8>, pos: int) -> Seq<u8> {
    if 0 <= pos <= key.len() {
        key.skip(pos)
    } else {
        Seq::empty()
    }
}

/// How many bytes of `key` can be followed from the node at `pos`.
pub open spec fn matched(a: Seq<u32>, pos: int, key: Seq<u8>) -> nat
    decreases key.len(),
{
    if key.len() == 0 {
        0
    } else {
        match trie::step(a, pos, key[0]) {
            Some(p) => 1 + matched(a, p, key.drop_first()),
            None => 0,
        }
    }
}

/// What following all of `key` from the node at `pos` gives: the value of the key, -1 if the
/// key can be followed but is none of the keys, or -2 if it cannot be followed to its end.
pub open spec fn outcome(a: Seq<u32>, pos: int, key: Seq<u8>) -> int {
    if matched(a, pos, key) < key.len() {
        -2
    } else {
        match trie::lookup(a, pos, key) {
            Some(v) => v as int,
            None => -1,
        }
    }
}

/// Following `key` from the node `node` and the position `pos` on gives `res`, and leads to the
/// node `end_node` and the position `end_pos`.
pub open spec fn followed(
    a: Seq<u32>,
    key: Seq<u8>,
    node: usize,
    pos: usize,
    res: i32,
    end_node: usize,
    end_pos: usize,
) -> bool {
    let start = node as u32 as int;
    let rest = tail(key, pos as int);
    let m = matched(a, start, rest);
    if start >= trie::bound(a) {
        &&& res == -2
        &&& end_node == node
        &&& end_pos == pos
    } else {
        &&& end_pos == pos + m
        &&& trie::walk(a, start, rest.take(m as int)) is Some
        &&& end_node == (if m == 0 {
            node as int
        } else {
            trie::walk(a, start, rest.take(m as int))->0
        })
        &&& res == outcome(a, start, rest)
    }
}

/// The search for prefixes of `key` from the node `node` on gives `res` matches, and makes
/// `after` of what was in the results before.
pub open spec fn searched(
    a: Seq<u32>,
    key: Seq<u8>,
    node: usize,
    before: Seq<Match>,
    after: Seq<Match>,
    res: usize,
) -> bool {
    let found = if node < a.len() {
        prefix_matches(a, node as int, key, key.len() as int)
    } else {
        Seq::empty()
    };
    &&& res == found.len()
    &&& after.len() == before.len()
    &&& forall|i: int|
        #![trigger after[i]]
        0 <= i < before.len() ==> if i < found.len() {
            after[i].value == found[i].0 && after[i].length == found[i].1
        } else {
            after[i] == before[i]
        }
}

/// The keys of the array with their values are `list`.
pub open spec fn listed(a: Seq<u32>, list: Seq<(Seq<u8>, i32)>) -> bool {
    &&& sorted(list)
    &&& forall|k: Seq<u8>, v: i32| #[trigger] list.contains((k, v)) <==> entry(a, 0, k) == Some(v)
}

/// The bytes that lead on from the node `node`, each with the node that it leads to, are
/// `list`.
pub open spec fn branches(a: Seq<u32>, node: usize, list: Seq<(u8, usize)>) -> bool {
    list == (if node < a.len() {
        children(a, node as int, 256)
    } else {
        Seq::empty()
    })
}

/// Listing the keys below the node `node`, each after `prefix`, makes `after` of the list
/// `before`.
pub open spec fn listed_below(
    a: Seq<u32>,
    node: usize,
    prefix: Seq<u8>,
    before: Seq<(Seq<u8>, i32)>,
    after: Seq<(Seq<u8>, i32)>,
) -> bool {
    &&& after.len() >= before.len()
    &&& after.take(before.len() as int) == before
    &&& if node < a.len() {
        lists(after.skip(before.len() as int), a, node as int, prefix, 256)
    } else {
        after == before
    }
}

/// The value and length of every key that is a prefix of the first `n` bytes of `key`, seen
/// from the node at `pos`. The empty key does not count.
pub open spec fn prefix_matches(a: Seq<u32>, pos: int, key: Seq<u8>, n: int) -> Seq<(i32, int)>
    decreases n,
{
    if n <= 0 {
        Seq::empty()
    } else {
        let before = prefix_matches(a, pos, key, n - 1);
        match trie::lookup(a, pos, key.take(n)) {
            Some(v) => before.push((v, n)),
            None => before,
        }
    }
}

/// The children of the node at `pos` under bytes below `n`, in ascending order.
pub open spec fn children(a: Seq<u32>, pos: int, n: int) -> Seq<(u8, usize)>
    decreases n,
{
    if n <= 0 {
        Seq::empty()
    } else {
        let before = children(a, pos, n - 1);
        match trie::step(a, pos, (n - 1) as u8) {
            Some(p) => before.push(((n - 1) as u8, p as usize)),
            None => before,
        }
    }
}

/// As many bytes as can be followed lead to a node, and no more.
pub proof fn lemma_matched(a: Seq<u32>, pos: int, key: Seq<u8>)
    ensures
        matched(a, pos, key) <= key.len(),
        trie::walk(a, pos, key.take(matched(a, pos, key) as int)) is Some,
        forall|n: int|
            0 <= n <= key.len() ==> ((#[trigger] trie::walk(a, pos, key.take(n))) is Some <==> n <= matched(
                a,
                pos,
                key,
            )),
    decreases key.len(),
{
    if key.len() > 0 {
        let c = key[0];
        let r = key.drop_first();
        if let Some(p) = trie::step(a, pos, c) {
            lemma_matched(a, p, r);
        }
        assert forall|n: int| 0 <= n <= key.len() implies ((#[trigger] trie::walk(a, pos, key.take(n))) is Some
            <==> n <= matched(a, pos, key)) by {
            if n > 0 {
                assert(key.take(n) =~= trie::cons(c, r.take(n - 1)));
                trie::lemma_walk_cons(a, pos, c, r.take(n - 1));
                if let Some(p) = trie::step(a, pos, c) {
                    assert(trie::walk(a, p, r.take(n - 1)) is Some <==> n - 1 <= matched(a, p, r));
                }
            }
        }
    } else {
        assert forall|n: int| 0 <= n <= key.len() implies ((#[trigger] trie::walk(a, pos, key.take(n))) is Some
            <==> n <= matched(a, pos, key)) by {}
        assert(key.take(0).len() == 0);
    }
}

/// Where the walk has ended there are no more matches.
proof fn lemma_matches_end(a: Seq<u32>, pos: int, key: Seq<u8>, m: int, n: int)
    requires
        0 <= m <= n <= key.len(),
        m < n ==> trie::walk(a, pos, key.take(m + 1)) is None,
    ensures
        prefix_matches(a, pos, key, n) == prefix_matches(a, pos, key, m),
    decreases n - m,
{
    if m < n {
        lemma_matches_end(a, pos, key, m, n - 1);
        if trie::walk(a, pos, key.take(n)) is Some {
            trie::lemma_walk_prefix(a, pos, key.take(n), m + 1);
            assert(key.take(n).take(m + 1) =~= key.take(m + 1));
        }
    }
}

/// There are no more matches than bytes, and none is longer than the key.
pub proof fn law_match_lengths(a: Seq<u32>, pos: int, key: Seq<u8>, n: int)
    requires
        0 <= n,
    ensures
        prefix_matches(a, pos, key, n).len() <= n,
        forall|i: int|
            0 <= i < prefix_matches(a, pos, key, n).len() ==> 0 < (#[trigger] prefix_matches(a, pos, key, n)[i]).1
                <= n,
    decreases n,
{
    if n > 0 {
        law_match_lengths(a, pos, key, n - 1);
    }
}

/// What is left of a number in 32 bits.
pub proof fn lemma_truncated(x: usize)
    ensures
        x as u32 == x as int % 0x1_0000_0000,
{
    let y = x as u64;
    assert(y as u32 == y % 0x1_0000_0000) by (bit_vector);
}

/// What comes of an array in these bytes at this address.
pub open spec fn opened(data: Seq<u8>, address: usize, res: Result<DoubleArray, &'static str>) -> bool {
    match res {
        Ok(da) => {
            &&& data.len() % 4 == 0
            &&& address % 4 == 0
            &&& data.len() > 0
            &&& da.wf()
            &&& da.units() == bytes::words(data)
        },
        Err(e) => {
            ||| data.len() % 4 != 0 && e@ == "Darts data length is not a multiple of 4"@
            ||| {
                &&& data.len() % 4 == 0
                &&& address % 4 != 0
                &&& e@ == "Darts array data is not aligned to 4 bytes"@
            }
            ||| data.len() == 0 && address % 4 == 0 && e@ == "Darts array is empty"@
        },
    }
}

/// The address of some bytes (`slice::as_ptr`, as a number). It depends on where they were put,
/// so nothing is claimed of it.
#[verifier::external_body]
fn address_of(data: &[u8]) -> (res: usize)
{
    data.as_ptr() as usize
}

/// Whether some bytes are at an address: whoever asks where they are may be told that one.
pub closed spec fn located(data: &[u8], address: usize) -> bool {
    call_ensures(address_of, (data,), address)
}

impl<'a> DoubleArray<'a> {
    /// The units.
    pub closed spec fn units(&self) -> Seq<u32> {
        bytes::words(self.array@)
    }

    /// There is at least one unit, and no byte is left over.
    pub closed spec fn wf(&self) -> bool {
        self.array@.len() % 4 == 0 && self.array@.len() > 0
    }

    /// An array in some bytes. It is refused if their address is not a multiple of four, which
    /// depends on where they were put.
    pub fn new(data: &'a [u8]) -> (res: Result<DoubleArray<'a>, &'static str>)
        ensures
            exists|address: usize| #[trigger] located(data, address) && opened(data@, address, res),
    {
        let address: usize = address_of(data);
        assert(located(data, address));
        let res: Result<DoubleArray<'a>, &'static str> = Self::new_at(data, address);
        assert(opened(data@, address, res));
        res
    }

    /// An array in some bytes whose address is `address`, or that many bytes behind an address
    /// that is a multiple of four.
    pub fn new_at(data: &'a [u8], address: usize) -> (res: Result<DoubleArray<'a>, &'static str>)
        ensures
            opened(data@, address, res),
    {
        if data.len() % 4 != 0 {
            return Err("Darts data length is not a multiple of 4");
        }
        if address % 4 != 0 {
            return Err("Darts array data is not aligned to 4 bytes");
        }
        if data.len() == 0 {
            return Err("Darts array is empty");
        }
        Ok(DoubleArray { array: data })
    }

    /// There is a unit.
    pub proof fn lemma_nonempty(&self)
        requires
            self.wf(),
        ensures
            self.units().len() > 0,
    {
    }

    /// The number of units.
    fn len(&self) -> (res: usize)
        ensures
            res == self.units().len(),
    {
        self.array.len() / 4
    }

    /// The units that can be reached are below this bound.
    fn bound(&self) -> (res: u32)
        ensures
            res == trie::bound(self.units()),
            res <= self.units().len(),
    {
        let len: usize = self.len();
        proof {
            lemma_truncated(len);
        }
        len as u32
    }

    /// The unit at `id`.
    fn unit(&self, id: usize) -> (res: DoubleArrayUnit)
        requires
            id < self.units().len(),
        ensures
            res.0 == self.units()[id as int],
    {
        assert(self.array.len() == self.array@.len());
        DoubleArrayUnit(bytes::get_word(self.array, id * 4))
    }

    /// Follows `key` from `key_pos` on, starting at the node `node_pos`, and moves both
    /// positions as far as the key can be followed. Returns the value of the key, -1 if it
    /// can be followed but is none of the keys, or -2 if it cannot be followed to its end.
    pub fn traverse(&self, key: &[u8], node_pos: &mut usize, key_pos: &mut usize) -> (res: i32)
        ensures
            followed(
                self.units(),
                key@,
                *old(node_pos),
                *old(key_pos),
                res,
                *final(node_pos),
                *final(key_pos),
            ),
    {
        let ghost a: Seq<u32> = self.units();
        let ghost start: int = *node_pos as u32 as int;
        let ghost kp: int = *key_pos as int;
        let ghost rest: Seq<u8> = tail(key@, kp);
        let ghost m: nat = matched(a, start, rest);
        let bound: u32 = self.bound();
        let mut id: u32 = #[verifier::truncate] (*node_pos as u32);
        if id >= bound {
            return -2;
        }
        proof {
            lemma_matched(a, start, rest);
            assert(rest.skip(0) =~= rest);
            assert(rest.take(0).len() == 0);
        }
        let mut unit: DoubleArrayUnit = self.unit(id as usize);
        let ghost mut n: int = 0;
        while *key_pos < key.len()
            invariant
                a == self.units(),
                rest == tail(key@, kp),
                m == matched(a, start, rest),
                m <= rest.len(),
                kp == *old(key_pos),
                start == *old(node_pos) as u32,
                start < trie::bound(a),
                bound == trie::bound(a),
                bound <= a.len(),
                id < bound,
                unit.0 == a[id as int],
                0 <= n <= rest.len(),
                *key_pos == kp + n,
                kp > key@.len() ==> n == 0,
                trie::walk(a, start, rest.take(n)) == Some(id as int),
                matched(a, start, rest) == n + matched(a, id as int, rest.skip(n)),
                *node_pos == (if n == 0 {
                    *old(node_pos) as int
                } else {
                    id as int
                }),
            decreases rest.len() - n,
        {
            let c: u8 = key[*key_pos];
            proof {
                assert(rest[n] == c);
                assert(rest.skip(n)[0] == c);
                assert(rest.skip(n).drop_first() =~= rest.skip(n + 1));
                assert(rest.take(n + 1).drop_last() =~= rest.take(n));
                assert(rest.take(n + 1).last() == c);
            }
            let next_id: u32 = (id ^ unit.offset()) ^ (c as u32);
            assert(next_id == unit::slot(trie::base(a, id as int), c));
            if next_id >= bound {
                return -2;
            }
            let next_unit: DoubleArrayUnit = self.unit(next_id as usize);
            if next_unit.label() != (c as u32) {
                return -2;
            }
            id = next_id;
            unit = next_unit;
            *node_pos = id as usize;
            *key_pos += 1;
            proof {
                n = n + 1;
            }
        }
        proof {
            assert(n == rest.len());
            assert(rest.take(n) =~= rest);
        }
        if !unit.has_leaf() {
            return -1;
        }
        let leaf_node_id: u32 = id ^ unit.offset();
        assert(leaf_node_id == trie::base(a, id as int));
        if leaf_node_id >= bound {
            return -1;
        }
        let leaf_unit: DoubleArrayUnit = self.unit(leaf_node_id as usize);
        leaf_unit.value()
    }

    /// Finds all keys that are prefixes of `key`, starting at the node `node_pos`. Returns
    /// their number, and puts as many of them as fit into `results`, the shortest first.
    pub fn common_prefix_search(&self, key: &[u8], node_pos: usize, results: &mut [Match]) -> (res: usize)
        ensures
            searched(self.units(), key@, node_pos, old(results)@, final(results)@, res),
    {
        let ghost a: Seq<u32> = self.units();
        let mut num_results: usize = 0;
        if node_pos >= self.len() {
            return 0;
        }
        let bound: u32 = self.bound();
        let ghost start: int = node_pos as int;
        let first: DoubleArrayUnit = self.unit(node_pos);
        let start_id: u32 = #[verifier::truncate] (node_pos as u32);
        let mut id: u32 = start_id ^ first.offset();
        let ghost mut pos: int = start;
        let mut i: usize = 0;
        assert(id == trie::base(a, start));
        assert(key@.take(0).len() == 0);
        while i < key.len()
            invariant
                a == self.units(),
                start == node_pos,
                0 <= start < a.len(),
                bound == trie::bound(a),
                bound <= a.len(),
                i <= key@.len(),
                trie::walk(a, start, key@.take(i as int)) == Some(pos),
                id == trie::base(a, pos),
                num_results == prefix_matches(a, start, key@, i as int).len(),
                num_results <= i,
                results@.len() == old(results)@.len(),
                forall|j: int|
                    #![trigger results@[j]]
                    0 <= j < old(results)@.len() ==> if j < num_results {
                        results@[j].value == prefix_matches(a, start, key@, i as int)[j].0 && results@[j].length
                            == prefix_matches(a, start, key@, i as int)[j].1
                    } else {
                        results@[j] == old(results)@[j]
                    },
            decreases key@.len() - i,
        {
            let c: u8 = key[i];
            let next_id: u32 = id ^ (c as u32);
            assert(next_id == unit::slot(trie::base(a, pos), c));
            proof {
                assert(key@.take(i + 1).drop_last() =~= key@.take(i as int));
                assert(key@.take(i + 1).last() == c);
            }
            if next_id >= bound {
                proof {
                    lemma_matches_end(a, start, key@, i as int, key@.len() as int);
                }
                return num_results;
            }
            let unit: DoubleArrayUnit = self.unit(next_id as usize);
            if unit.label() != (c as u32) {
                proof {
                    lemma_matches_end(a, start, key@, i as int, key@.len() as int);
                }
                return num_results;
            }
            id = next_id ^ unit.offset();
            proof {
                pos = next_id as int;
                assert(id == trie::base(a, pos));
            }
            if unit.has_leaf() {
                if id < bound {
                    let leaf_unit: DoubleArrayUnit = self.unit(id as usize);
                    let value: i32 = leaf_unit.value();
                    if num_results < results.len() {
                        results[num_results] = Match { value: value, length: i + 1 };
                    }
                    num_results += 1;
                }
            }
            i += 1;
        }
        num_results
    }

    /// The children of a node, with their labels in ascending order.
    pub fn get_children(&self, node_pos: usize) -> (res: Vec<(u8, usize)>)
        ensures
            branches(self.units(), node_pos, res@),
    {
        let ghost a: Seq<u32> = self.units();
        let mut found: Vec<(u8, usize)> = Vec::new();
        if node_pos >= self.len() {
            return found;
        }
        let bound: u32 = self.bound();
        let unit: DoubleArrayUnit = self.unit(node_pos);
        let pos: u32 = #[verifier::truncate] (node_pos as u32);
        let base: u32 = pos ^ unit.offset();
        let mut c: u32 = 0;
        while c < 256
            invariant
                a == self.units(),
                node_pos < a.len(),
                bound == trie::bound(a),
                bound <= a.len(),
                base == trie::base(a, node_pos as int),
                c <= 256,
                found@ == children(a, node_pos as int, c as int),
            decreases 256 - c,
        {
            let next_id: u32 = base ^ c;
            assert(next_id == unit::slot(base, c as u8));
            if next_id < bound {
                let next_unit: DoubleArrayUnit = self.unit(next_id as usize);
                if next_unit.label() == c {
                    found.push((c as u8, next_id as usize));
                }
            }
            c += 1;
        }
        found
    }
}

/// The child of the node at `pos` under the byte `c`, if that is another node.
pub open spec fn hop(a: Seq<u32>, pos: int, c: u8) -> Option<int> {
    match trie::step(a, pos, c) {
        Some(p) => if p == pos {
            None
        } else {
            Some(p)
        },
        None => None,
    }
}

/// The node that `key` leads to from the node at `pos`, where no byte leads a node to itself.
pub open spec fn trail(a: Seq<u32>, pos: int, key: Seq<u8>) -> Option<int>
    decreases key.len(),
{
    if key.len() == 0 {
        Some(pos)
    } else {
        match trail(a, pos, key.drop_last()) {
            Some(p) => hop(a, p, key.last()),
            None => None,
        }
    }
}

/// The value of `key` below the node at `pos`, wherever its leaf is.
pub open spec fn entry(a: Seq<u32>, pos: int, key: Seq<u8>) -> Option<i32> {
    match trail(a, pos, key) {
        Some(p) => trie::leaf_within(a, p, a.len() as int),
        None => None,
    }
}

/// No key leads further than `height` steps from the node at `pos`.
pub open spec fn finite(a: Seq<u32>, pos: int, height: nat) -> bool {
    forall|k: Seq<u8>| (#[trigger] trail(a, pos, k)) is Some ==> k.len() <= height
}

/// A trail can be taken byte by byte from the front.
pub proof fn lemma_trail_cons(a: Seq<u32>, pos: int, c: u8, k: Seq<u8>)
    ensures
        trail(a, pos, trie::cons(c, k)) == match hop(a, pos, c) {
            Some(p) => trail(a, p, k),
            None => None,
        },
    decreases k.len(),
{
    let key = trie::cons(c, k);
    if k.len() == 0 {
        assert(key.drop_last() =~= Seq::<u8>::empty());
        assert(trail(a, pos, key.drop_last()) == Some(pos));
    } else {
        assert(key.drop_last() =~= trie::cons(c, k.drop_last()));
        lemma_trail_cons(a, pos, c, k.drop_last());
    }
}

/// A trail can be taken in two parts.
pub proof fn lemma_trail_concat(a: Seq<u32>, pos: int, k: Seq<u8>, l: Seq<u8>)
    ensures
        trail(a, pos, k + l) == match trail(a, pos, k) {
            Some(p) => trail(a, p, l),
            None => None,
        },
    decreases l.len(),
{
    if l.len() == 0 {
        assert(k + l =~= k);
    } else {
        assert((k + l).drop_last() =~= k + l.drop_last());
        lemma_trail_concat(a, pos, k, l.drop_last());
    }
}

/// A trail is a walk.
pub proof fn lemma_trail_walk(a: Seq<u32>, pos: int, k: Seq<u8>)
    ensures
        trail(a, pos, k) is Some ==> trie::walk(a, pos, k) == trail(a, pos, k),
    decreases k.len(),
{
    if k.len() > 0 {
        lemma_trail_walk(a, pos, k.drop_last());
    }
}

/// A byte that leads a node to itself can be followed any number of times.
proof fn lemma_round(a: Seq<u32>, pos: int, k: Seq<u8>, c: u8, n: nat)
    requires
        trie::walk(a, pos, k) is Some,
        trie::step(a, trie::walk(a, pos, k)->0, c) == trie::walk(a, pos, k),
    ensures
        trie::walk(a, pos, k + Seq::new(n, |i: int| c)) == trie::walk(a, pos, k),
    decreases n,
{
    let more = Seq::new(n, |i: int| c);
    if n == 0 {
        assert(k + more =~= k);
    } else {
        let less = Seq::new((n - 1) as nat, |i: int| c);
        lemma_round(a, pos, k, c, (n - 1) as nat);
        assert((k + more).drop_last() =~= k + less);
        assert((k + more).last() == c);
    }
}

/// Where only keys up to some length can be followed, no byte leads a node to itself, and the
/// keys with their values are all that can be followed.
pub proof fn law_plain_listing(a: Seq<u32>, pos: int, height: nat, k: Seq<u8>)
    requires
        forall|l: Seq<u8>| (#[trigger] trie::walk(a, pos, l)) is Some ==> l.len() <= height,
    ensures
        trail(a, pos, k) == trie::walk(a, pos, k),
        finite(a, pos, height),
    decreases k.len(),
{
    if k.len() > 0 {
        law_plain_listing(a, pos, height, k.drop_last());
        if trie::walk(a, pos, k.drop_last()) is Some {
            let p = trie::walk(a, pos, k.drop_last())->0;
            if trie::step(a, p, k.last()) == Some(p) {
                lemma_round(a, pos, k.drop_last(), k.last(), height + 1);
                let more = k.drop_last() + Seq::new(height + 1, |i: int| k.last());
                assert(trie::walk(a, pos, more) is Some);
            }
        }
    }
    assert forall|l: Seq<u8>| (#[trigger] trail(a, pos, l)) is Some implies l.len() <= height by {
        lemma_trail_walk(a, pos, l);
        assert(trie::walk(a, pos, l) is Some);
    }
}

/// Keys with values, as they were found.
pub open spec fn found(list: Seq<(Vec<u8>, i32)>) -> Seq<(Seq<u8>, i32)> {
    Seq::new(list.len(), |i: int| (list[i].0@, list[i].1))
}

/// The keys are in ascending order, and none occurs twice.
pub open spec fn sorted(s: Seq<(Seq<u8>, i32)>) -> bool {
    forall|i: int, j: int|
        #![trigger s[i], s[j]]
        0 <= i < j < s.len() ==> words::less(s[i].0, s[j].0)
}

/// `s` holds the keys below the node at `pos` that are empty or begin with a byte below
/// `cur`, each after `prefix`.
pub open spec fn lists(s: Seq<(Seq<u8>, i32)>, a: Seq<u32>, pos: int, prefix: Seq<u8>, cur: int) -> bool {
    &&& sorted(s)
    &&& forall|i: int|
        #![trigger s[i]]
        0 <= i < s.len() ==> {
            let k = s[i].0.skip(prefix.len() as int);
            &&& s[i].0.len() >= prefix.len()
            &&& s[i].0 == prefix + k
            &&& k.len() > 0 ==> k[0] < cur
            &&& entry(a, pos, k) == Some(s[i].1)
        }
    &&& forall|k: Seq<u8>|
        (#[trigger] entry(a, pos, k)) is Some && (k.len() > 0 ==> k[0] < cur) ==> s.contains(
            (prefix + k, entry(a, pos, k)->0),
        )
}

/// The keys below a child, in terms of its parent.
proof fn lemma_entry_cons(a: Seq<u32>, pos: int, c: u8, k: Seq<u8>)
    ensures
        entry(a, pos, trie::cons(c, k)) == (match hop(a, pos, c) {
            Some(p) => entry(a, p, k),
            None => None,
        }),
{
    lemma_trail_cons(a, pos, c, k);
}

/// The list of a node before its children are visited.
proof fn lemma_lists_start(a: Seq<u32>, pos: int, prefix: Seq<u8>, s: Seq<(Seq<u8>, i32)>)
    requires
        s == (match trie::leaf_within(a, pos, a.len() as int) {
            Some(v) => seq![(prefix, v)],
            None => Seq::empty(),
        }),
    ensures
        lists(s, a, pos, prefix, 0),
{
    assert(entry(a, pos, Seq::empty()) == trie::leaf_within(a, pos, a.len() as int));
    assert(prefix + Seq::<u8>::empty() =~= prefix);
    if s.len() > 0 {
        assert(s[0].0.skip(prefix.len() as int) =~= Seq::<u8>::empty());
    }
    assert forall|k: Seq<u8>| (#[trigger] entry(a, pos, k)) is Some && (k.len() > 0 ==> k[0] < 0) implies s.contains(
        (prefix + k, entry(a, pos, k)->0),
    ) by {
        assert(k =~= Seq::<u8>::empty());
        assert(s[0] == (prefix + k, entry(a, pos, k)->0));
    }
}

/// A byte without a child, or one that leads a node to itself, adds nothing to the list.
proof fn lemma_lists_skip(
    s: Seq<(Seq<u8>, i32)>,
    a: Seq<u32>,
    pos: int,
    prefix: Seq<u8>,
    cur: int,
    next: int,
)
    requires
        lists(s, a, pos, prefix, cur),
        0 <= cur <= next <= 256,
        forall|c: u8| cur <= c < next ==> (#[trigger] hop(a, pos, c)) is None,
    ensures
        lists(s, a, pos, prefix, next),
{
    assert forall|k: Seq<u8>| (#[trigger] entry(a, pos, k)) is Some && (k.len() > 0 ==> k[0] < next) implies s.contains(
        (prefix + k, entry(a, pos, k)->0),
    ) by {
        if k.len() > 0 && k[0] >= cur {
            assert(k =~= trie::cons(k[0], k.drop_first()));
            lemma_entry_cons(a, pos, k[0], k.drop_first());
            assert(hop(a, pos, k[0]) is None);
        }
    }
}

/// The list of a child goes behind those of the children before it.
proof fn lemma_lists_join(
    s: Seq<(Seq<u8>, i32)>,
    t: Seq<(Seq<u8>, i32)>,
    a: Seq<u32>,
    pos: int,
    prefix: Seq<u8>,
    c: u8,
    child: int,
)
    requires
        lists(s, a, pos, prefix, c as int),
        hop(a, pos, c) == Some(child),
        lists(t, a, child, prefix.push(c), 256),
    ensures
        lists(s + t, a, pos, prefix, c + 1),
{
    let n = prefix.len() as int;
    let q = prefix.push(c);
    let u = s + t;
    assert forall|i: int| #![trigger t[i]] 0 <= i < t.len() implies {
        let k = t[i].0.skip(n);
        &&& t[i].0.len() >= n
        &&& t[i].0 == prefix + k
        &&& k.len() > 0
        &&& k[0] == c
        &&& entry(a, pos, k) == Some(t[i].1)
    } by {
        let k = t[i].0.skip(n);
        let l = t[i].0.skip(n + 1);
        assert(t[i].0 == q + l);
        assert(k =~= trie::cons(c, l));
        assert(prefix + k =~= q + l);
        lemma_entry_cons(a, pos, c, l);
    }
    assert forall|i: int| #![trigger u[i]] 0 <= i < u.len() implies {
        let k = u[i].0.skip(n);
        &&& u[i].0.len() >= n
        &&& u[i].0 == prefix + k
        &&& k.len() > 0 ==> k[0] < c + 1
        &&& entry(a, pos, k) == Some(u[i].1)
    } by {
        if i < s.len() {
            assert(u[i] == s[i]);
        } else {
            assert(u[i] == t[i - s.len()]);
        }
    }
    assert forall|i: int, j: int| #![trigger u[i], u[j]] 0 <= i < j < u.len() implies words::less(u[i].0, u[j].0) by {
        if j < s.len() {
            assert(u[i] == s[i] && u[j] == s[j]);
        } else if i >= s.len() {
            assert(u[i] == t[i - s.len()] && u[j] == t[j - s.len()]);
        } else {
            assert(u[i] == s[i] && u[j] == t[j - s.len()]);
            words::lemma_less_after(prefix, s[i].0.skip(n), u[j].0.skip(n));
        }
    }
    assert forall|k: Seq<u8>| (#[trigger] entry(a, pos, k)) is Some && (k.len() > 0 ==> k[0] < c + 1) implies u.contains(
        (prefix + k, entry(a, pos, k)->0),
    ) by {
        if k.len() > 0 && k[0] == c {
            let l = k.drop_first();
            assert(k =~= trie::cons(c, l));
            lemma_entry_cons(a, pos, c, l);
            assert(entry(a, child, l) is Some);
            assert(prefix + k =~= q + l);
            let e = (q + l, entry(a, child, l)->0);
            assert(t.contains(e));
            let i = choose|i: int| 0 <= i < t.len() && t[i] == e;
            assert(u[s.len() + i] == e);
        } else {
            let e = (prefix + k, entry(a, pos, k)->0);
            assert(s.contains(e));
            let i = choose|i: int| 0 <= i < s.len() && s[i] == e;
            assert(u[i] == e);
        }
    }
}

/// The children of a node are the bytes that lead somewhere, in order.
proof fn lemma_children(a: Seq<u32>, pos: int, n: int)
    requires
        0 <= n <= 256,
        a.len() <= usize::MAX,
    ensures
        forall|i: int|
            #![trigger children(a, pos, n)[i]]
            0 <= i < children(a, pos, n).len() ==> {
                let (c, p) = children(a, pos, n)[i];
                c < n && trie::step(a, pos, c) == Some(p as int)
            },
        forall|c: u8|
            c < n && (#[trigger] trie::step(a, pos, c)) is Some ==> exists|i: int|
                0 <= i < children(a, pos, n).len() && (#[trigger] children(a, pos, n)[i]).0 == c,
        forall|i: int, j: int|
            #![trigger children(a, pos, n)[i], children(a, pos, n)[j]]
            0 <= i < j < children(a, pos, n).len() ==> children(a, pos, n)[i].0 < children(a, pos, n)[j].0,
    decreases n,
{
    if n > 0 {
        lemma_children(a, pos, n - 1);
        let before = children(a, pos, n - 1);
        let now = children(a, pos, n);
        let last = (n - 1) as u8;
        assert forall|c: u8| c < n && (#[trigger] trie::step(a, pos, c)) is Some implies exists|i: int|
            0 <= i < now.len() && (#[trigger] now[i]).0 == c by {
            if c < n - 1 {
                let i = choose|i: int| 0 <= i < before.len() && (#[trigger] before[i]).0 == c;
                assert(now[i].0 == c);
            } else {
                assert(now[now.len() - 1].0 == c);
            }
        }
    }
}

/// The children of a node are listed in ascending order of their labels, and are those to
/// which one byte can be followed.
pub proof fn law_children(a: Seq<u32>, pos: int, c: u8, p: usize)
    requires
        a.len() <= 0x8000_0000,
    ensures
        forall|i: int, j: int|
            #![trigger children(a, pos, 256)[i], children(a, pos, 256)[j]]
            0 <= i < j < children(a, pos, 256).len() ==> children(a, pos, 256)[i].0 < children(a, pos, 256)[j].0,
        children(a, pos, 256).contains((c, p)) <==> matched(a, pos, seq![c]) == 1 && trie::walk(a, pos, seq![c])
            == Some(p as int),
{
    reveal_with_fuel(matched, 2);
    let kids = children(a, pos, 256);
    lemma_children(a, pos, 256);
    let key = seq![c];
    assert(key.drop_first() =~= Seq::<u8>::empty());
    assert(key.drop_last() =~= Seq::<u8>::empty());
    assert(trie::walk(a, pos, key.drop_last()) == Some(pos));
    assert(trie::walk(a, pos, key) == trie::step(a, pos, c));
    if kids.contains((c, p)) {
        let i = choose|i: int| 0 <= i < kids.len() && kids[i] == (c, p);
        assert(trie::step(a, pos, c) == Some(p as int));
    }
    if trie::step(a, pos, c) == Some(p as int) {
        let i = choose|i: int| 0 <= i < kids.len() && (#[trigger] kids[i]).0 == c;
        assert(kids[i] == (c, p));
    }
}

/// What is below a child is less deep than what is below its parent.
pub proof fn lemma_finite_child(a: Seq<u32>, pos: int, height: nat, c: u8, child: int)
    requires
        finite(a, pos, height),
        hop(a, pos, c) == Some(child),
    ensures
        height > 0,
        finite(a, child, (height - 1) as nat),
{
    lemma_trail_cons(a, pos, c, Seq::empty());
    assert(trail(a, pos, trie::cons(c, Seq::empty())) is Some);
    assert forall|k: Seq<u8>| (#[trigger] trail(a, child, k)) is Some implies k.len() <= height - 1 by {
        lemma_trail_cons(a, pos, c, k);
        assert(trail(a, pos, trie::cons(c, k)) is Some);
    }
}

/// How far the search for keys without end has come with a node.
#[derive(Clone, Copy, Debug, PartialEq, Eq, Structural)]
pub enum Visit {
    New,
    Open,
    Done,
}

/// The number of new nodes among the first `n`.
pub open spec fn new_nodes(marks: Seq<Visit>, n: int) -> nat
    decreases n,
{
    if n <= 0 {
        0
    } else {
        new_nodes(marks, n - 1) + (if marks[n - 1] == Visit::New {
            1nat
        } else {
            0nat
        })
    }
}

/// No node becomes new again; if `p` was new and is not, there are fewer.
proof fn lemma_new_nodes(a: Seq<Visit>, b: Seq<Visit>, n: int, p: int)
    requires
        n <= a.len(),
        a.len() == b.len(),
        forall|i: int| 0 <= i < n && #[trigger] b[i] == Visit::New ==> a[i] == Visit::New,
    ensures
        new_nodes(b, n) <= new_nodes(a, n),
        0 <= p < n && a[p] == Visit::New && b[p] != Visit::New ==> new_nodes(b, n) < new_nodes(a, n),
    decreases n,
{
    if n > 0 {
        lemma_new_nodes(a, b, n - 1, p);
        assert(b[n - 1] == Visit::New ==> a[n - 1] == Visit::New);
    }
}

/// `key` leads from one node to another.
pub open spec fn leads(a: Seq<u32>, from: int, key: Seq<u8>, to: int) -> bool {
    trail(a, from, key) == Some(to)
}

/// Some key with a byte leads from one node to another.
pub open spec fn reaches(a: Seq<u32>, from: int, to: int) -> bool {
    exists|key: Seq<u8>| key.len() > 0 && #[trigger] leads(a, from, key, to)
}

/// A node that can be reached from the node at `pos` can be reached from itself.
pub open spec fn endless(a: Seq<u32>, pos: int) -> bool {
    exists|p: int, key: Seq<u8>| #[trigger] leads(a, pos, key, p) && reaches(a, p, p)
}

/// The children of a done node are done, and were done before.
pub open spec fn ranked(a: Seq<u32>, marks: Seq<Visit>, rank: Seq<nat>) -> bool {
    &&& marks.len() == a.len()
    &&& rank.len() == a.len()
    &&& forall|p: int, c: u8|
        #![trigger hop(a, p, c)]
        0 <= p < a.len() && marks[p] == Visit::Done && hop(a, p, c) is Some ==> {
            let q = hop(a, p, c)->0;
            marks[q] == Visit::Done && rank[q] < rank[p]
        }
}

/// What leads to a node, and then a byte.
proof fn lemma_leads_on(a: Seq<u32>, from: int, key: Seq<u8>, p: int, c: u8, q: int)
    requires
        leads(a, from, key, p),
        hop(a, p, c) == Some(q),
    ensures
        leads(a, from, key.push(c), q),
{
    assert(key.push(c).drop_last() =~= key);
}

/// What leads to a node, and from there to another.
proof fn lemma_leads_twice(a: Seq<u32>, x: int, k: Seq<u8>, y: int, l: Seq<u8>, z: int)
    requires
        leads(a, x, k, y),
        leads(a, y, l, z),
    ensures
        leads(a, x, k + l, z),
{
    lemma_trail_concat(a, x, k, l);
}

/// No key leads further from a done node than its rank is.
proof fn lemma_ranked(a: Seq<u32>, marks: Seq<Visit>, rank: Seq<nat>, p: int, key: Seq<u8>)
    requires
        ranked(a, marks, rank),
        0 <= p < a.len(),
        marks[p] == Visit::Done,
        trail(a, p, key) is Some,
    ensures
        key.len() <= rank[p],
    decreases key.len(),
{
    if key.len() > 0 {
        let c = key[0];
        let k = key.drop_first();
        assert(key =~= trie::cons(c, k));
        lemma_trail_cons(a, p, c, k);
        let q = hop(a, p, c)->0;
        lemma_ranked(a, marks, rank, q, k);
    }
}

/// Where a node can be reached from itself, keys of any length can be followed.
proof fn lemma_endless(a: Seq<u32>, pos: int, n: nat) -> (key: Seq<u8>)
    requires
        endless(a, pos),
    ensures
        trail(a, pos, key) is Some,
        key.len() >= n,
        exists|p: int| #[trigger] leads(a, pos, key, p) && reaches(a, p, p),
    decreases n,
{
    if n == 0 {
        let (p, key) = choose|p: int, key: Seq<u8>| #[trigger] leads(a, pos, key, p) && reaches(a, p, p);
        key
    } else {
        let key = lemma_endless(a, pos, (n - 1) as nat);
        let p = choose|p: int| #[trigger] leads(a, pos, key, p) && reaches(a, p, p);
        let round = choose|k: Seq<u8>| k.len() > 0 && #[trigger] leads(a, p, k, p);
        lemma_leads_twice(a, pos, key, p, round, p);
        key + round
    }
}

/// Copies some bytes.
fn copy(data: &Vec<u8>) -> (res: Vec<u8>)
    ensures
        res@ == data@,
{
    let mut out: Vec<u8> = Vec::with_capacity(data.len());
    let mut i: usize = 0;
    while i < data.len()
        invariant
            i <= data@.len(),
            out@ == data@.take(i as int),
        decreases data@.len() - i,
    {
        out.push(data[i]);
        assert(data@.take(i + 1) =~= data@.take(i as int).push(data@[i as int]));
        i += 1;
    }
    assert(data@.take(i as int) =~= data@);
    out
}

impl<'a> DoubleArray<'a> {
    /// Lists all keys below a node, each after `prefix`, behind what was found before. There
    /// are none below a node that does not exist.
    pub fn list_keys_recursive(
        &self,
        node_pos: usize,
        prefix: &mut Vec<u8>,
        results: &mut Vec<(Vec<u8>, i32)>,
    )
        requires
            node_pos < self.units().len() ==> exists|height: nat| #[trigger]
                finite(self.units(), node_pos as int, height),
        ensures
            final(prefix)@ == old(prefix)@,
            listed_below(self.units(), node_pos, old(prefix)@, found(old(results)@), found(final(results)@)),
            node_pos >= self.units().len() ==> final(results)@ == old(results)@,
    {
        if node_pos >= self.len() {
            assert(found(results@).take(results@.len() as int) =~= found(results@));
            return;
        }
        let ghost height: nat = choose|height: nat| #[trigger] finite(self.units(), node_pos as int, height);
        self.list_below(node_pos, prefix, results, Ghost(height));
    }

    /// Lists all keys below a node, none of which is longer than `height`.
    fn list_below(
        &self,
        node_pos: usize,
        prefix: &mut Vec<u8>,
        results: &mut Vec<(Vec<u8>, i32)>,
        Ghost(height): Ghost<nat>,
    )
        requires
            node_pos < self.units().len(),
            finite(self.units(), node_pos as int, height),
        ensures
            final(prefix)@ == old(prefix)@,
            final(results)@.len() >= old(results)@.len(),
            found(final(results)@).take(old(results)@.len() as int) == found(old(results)@),
            lists(
                found(final(results)@).skip(old(results)@.len() as int),
                self.units(),
                node_pos as int,
                old(prefix)@,
                256,
            ),
        decreases height,
    {
        let ghost a: Seq<u32> = self.units();
        let ghost pos: int = node_pos as int;
        let ghost p: Seq<u8> = prefix@;
        let ghost n0: int = results@.len() as int;
        let ghost f0: Seq<(Seq<u8>, i32)> = found(results@);
        let unit: DoubleArrayUnit = self.unit(node_pos);
        if unit.has_leaf() {
            let leaf_pos: u32 = #[verifier::truncate] (node_pos as u32);
            let leaf_node_id: u32 = leaf_pos ^ unit.offset();
            assert(leaf_node_id == trie::base(a, pos));
            if (leaf_node_id as usize) < self.len() {
                let leaf_unit: DoubleArrayUnit = self.unit(leaf_node_id as usize);
                results.push((copy(prefix), leaf_unit.value()));
            }
        }
        proof {
            let s = found(results@).skip(n0);
            assert(found(results@).take(n0) =~= f0);
            assert(s =~= match trie::leaf_within(a, pos, a.len() as int) {
                Some(v) => seq![(p, v)],
                None => Seq::empty(),
            });
            lemma_lists_start(a, pos, p, s);
        }
        let kids: Vec<(u8, usize)> = self.get_children(node_pos);
        let mut i: usize = 0;
        let ghost mut cur: int = 0;
        proof {
            assert(self.array.len() == self.array@.len());
            lemma_children(a, pos, 256);
        }
        while i < kids.len()
            invariant
                a == self.units(),
                a.len() <= usize::MAX,
                pos == node_pos,
                0 <= pos < a.len(),
                finite(a, pos, height),
                p == old(prefix)@,
                prefix@ == p,
                kids@ == children(a, pos, 256),
                i <= kids@.len(),
                n0 == old(results)@.len(),
                f0 == found(old(results)@),
                results@.len() >= n0,
                found(results@).take(n0) == f0,
                lists(found(results@).skip(n0), a, pos, p, cur),
                0 <= cur <= 256,
                forall|j: int| #![trigger kids@[j]] 0 <= j < i ==> kids@[j].0 < cur,
                i < kids@.len() ==> cur <= kids@[i as int].0,
                forall|c: u8| cur > c && (#[trigger] trie::step(a, pos, c)) is Some ==> exists|j: int|
                    0 <= j < i && (#[trigger] kids@[j]).0 == c,
            decreases kids@.len() - i,
        {
            let (c, child_node_id) = kids[i];
            let ghost before: Seq<(Seq<u8>, i32)> = found(results@);
            let ghost m: int = results@.len() as int;
            proof {
                lemma_children(a, pos, 256);
                assert(kids@[i as int] == (c, child_node_id));
                assert forall|x: u8| cur <= x < c implies (#[trigger] hop(a, pos, x)) is None by {
                    if trie::step(a, pos, x) is Some {
                        let j = choose|j: int| 0 <= j < kids@.len() && (#[trigger] kids@[j]).0 == x;
                        if j > i {
                            assert(kids@[i as int].0 < kids@[j].0);
                        }
                    }
                }
                lemma_lists_skip(before.skip(n0), a, pos, p, cur, c as int);
            }
            if child_node_id != node_pos {
                proof {
                    assert(hop(a, pos, c) == Some(child_node_id as int));
                    lemma_finite_child(a, pos, height, c, child_node_id as int);
                }
                prefix.push(c);
                self.list_below(child_node_id, prefix, results, Ghost((height - 1) as nat));
                let last: Option<u8> = prefix.pop();
                proof {
                    let now = found(results@);
                    assert(prefix@ =~= p);
                    assert(now.take(m) == before);
                    assert(now.take(n0) =~= before.take(n0)) by {
                        assert(now.take(m).take(n0) =~= now.take(n0));
                    }
                    assert(now.skip(n0) =~= before.skip(n0) + now.skip(m)) by {
                        assert forall|x: int| n0 <= x < m implies now[x] == before[x] by {
                            assert(now.take(m)[x] == now[x]);
                        }
                    }
                    lemma_lists_join(before.skip(n0), now.skip(m), a, pos, p, c, child_node_id as int);
                }
            } else {
                proof {
                    assert(hop(a, pos, c) is None);
                    lemma_lists_skip(before.skip(n0), a, pos, p, c as int, c + 1);
                }
            }
            proof {
                cur = c + 1;
                assert forall|j: int| #![trigger kids@[j]] 0 <= j < i + 1 implies kids@[j].0 < cur by {}
                if i + 1 < kids@.len() {
                    assert(kids@[i as int].0 < kids@[i + 1].0);
                }
                assert forall|x: u8| cur > x && (#[trigger] trie::step(a, pos, x)) is Some implies exists|j: int|
                    0 <= j < i + 1 && (#[trigger] kids@[j]).0 == x by {
                    let j = choose|j: int| 0 <= j < kids@.len() && (#[trigger] kids@[j]).0 == x;
                    if j > i {
                        assert(kids@[i as int].0 < kids@[j].0);
                    }
                }
            }
            i += 1;
        }
        proof {
            lemma_children(a, pos, 256);
            assert forall|x: u8| cur <= x < 256 implies (#[trigger] hop(a, pos, x)) is None by {
                if trie::step(a, pos, x) is Some {
                    let j = choose|j: int| 0 <= j < kids@.len() && (#[trigger] kids@[j]).0 == x;
                    assert(kids@[j].0 < cur);
                }
            }
            lemma_lists_skip(found(results@).skip(n0), a, pos, p, cur, 256);
        }
    }

    /// Visits the node at `pos` and all below it. Ends early where a key without end is found.
    fn visit(&self, pos: usize, marks: &mut Vec<Visit>, rank: &mut Ghost<Seq<nat>>, time: &mut Ghost<nat>) -> (res: bool)
        requires
            pos < self.units().len(),
            ranked(self.units(), old(marks)@, old(rank)@),
            forall|p: int| #![trigger old(rank)@[p]] 0 <= p < old(rank)@.len() ==> old(rank)@[p] <= old(time)@,
            forall|p: int|
                #![trigger old(marks)@[p]]
                0 <= p < old(marks)@.len() && old(marks)@[p] == Visit::Open ==> reaches(self.units(), p, pos as int),
        ensures
            final(marks)@.len() == old(marks)@.len(),
            res ==> {
                &&& ranked(self.units(), final(marks)@, final(rank)@)
                &&& final(marks)@[pos as int] == Visit::Done
                &&& forall|p: int| #![trigger final(rank)@[p]] 0 <= p < final(rank)@.len() ==> final(rank)@[p] <= final(time)@
                &&& old(time)@ <= final(time)@
                &&& forall|p: int|
                    #![trigger final(marks)@[p]]
                    0 <= p < final(marks)@.len() ==> {
                        &&& final(marks)@[p] == Visit::New ==> old(marks)@[p] == Visit::New
                        &&& final(marks)@[p] == Visit::Open <==> old(marks)@[p] == Visit::Open
                        &&& old(marks)@[p] == Visit::Done ==> final(marks)@[p] == Visit::Done
                    }
            },
            !res ==> endless(self.units(), pos as int),
        decreases new_nodes(old(marks)@, old(marks)@.len() as int),
    {
        let ghost a: Seq<u32> = self.units();
        let ghost none: Seq<u8> = Seq::empty();
        assert(leads(a, pos as int, none, pos as int));
        match marks[pos] {
            Visit::Done => {
                return true;
            },
            Visit::Open => {
                assert(reaches(a, pos as int, pos as int));
                return false;
            },
            Visit::New => {},
        }
        marks.set(pos, Visit::Open);
        let ghost opened: Seq<Visit> = marks@;
        proof {
            lemma_new_nodes(old(marks)@, opened, opened.len() as int, pos as int);
        }
        let kids: Vec<(u8, usize)> = self.get_children(pos);
        proof {
            assert(self.array.len() == self.array@.len());
            lemma_children(a, pos as int, 256);
        }
        let mut i: usize = 0;
        while i < kids.len()
            invariant
                i <= kids@.len(),
                a == self.units(),
                pos < a.len() <= usize::MAX,
                kids@ == children(a, pos as int, 256),
                none == Seq::<u8>::empty(),
                leads(a, pos as int, none, pos as int),
                ranked(a, marks@, rank@),
                forall|p: int| #![trigger rank@[p]] 0 <= p < rank@.len() ==> rank@[p] <= time@,
                old(time)@ <= time@,
                old(marks)@.len() == a.len(),
                old(marks)@[pos as int] == Visit::New,
                opened == old(marks)@.update(pos as int, Visit::Open),
                forall|p: int|
                    #![trigger old(marks)@[p]]
                    0 <= p < old(marks)@.len() && old(marks)@[p] == Visit::Open ==> reaches(a, p, pos as int),
                forall|p: int|
                    #![trigger marks@[p]]
                    0 <= p < marks@.len() ==> {
                        &&& marks@[p] == Visit::New ==> opened[p] == Visit::New
                        &&& marks@[p] == Visit::Open <==> opened[p] == Visit::Open
                        &&& opened[p] == Visit::Done ==> marks@[p] == Visit::Done
                    },
                forall|j: int|
                    #![trigger kids@[j]]
                    0 <= j < i && kids@[j].1 != pos ==> marks@[kids@[j].1 as int] == Visit::Done,
            decreases kids@.len() - i,
        {
            let (c, child) = kids[i];
            proof {
                lemma_children(a, pos as int, 256);
                assert(kids@[i as int] == (c, child));
                assert(trie::step(a, pos as int, c) == Some(child as int));
            }
            if child != pos {
                let ghost before: Seq<Visit> = marks@;
                proof {
                    assert(hop(a, pos as int, c) == Some(child as int));
                    lemma_new_nodes(old(marks)@, before, before.len() as int, pos as int);
                    assert(marks@[pos as int] == Visit::Open);
                    assert forall|p: int|
                        #![trigger marks@[p]]
                        0 <= p < marks@.len() && marks@[p] == Visit::Open implies reaches(a, p, child as int) by {
                        if p == pos {
                            lemma_leads_on(a, p, none, p, c, child as int);
                        } else {
                            assert(old(marks)@[p] == Visit::Open);
                            let k = choose|k: Seq<u8>| k.len() > 0 && #[trigger] leads(a, p, k, pos as int);
                            lemma_leads_on(a, p, k, pos as int, c, child as int);
                        }
                    }
                }
                if !self.visit(child, marks, rank, time) {
                    proof {
                        let (p, k) = choose|p: int, k: Seq<u8>| #[trigger] leads(a, child as int, k, p) && reaches(a, p, p);
                        lemma_leads_on(a, pos as int, none, pos as int, c, child as int);
                        lemma_leads_twice(a, pos as int, none.push(c), child as int, k, p);
                    }
                    return false;
                }
                proof {
                    assert forall|j: int|
                        #![trigger kids@[j]]
                        0 <= j < i && kids@[j].1 != pos implies marks@[kids@[j].1 as int] == Visit::Done by {
                        assert(trie::step(a, pos as int, kids@[j].0) == Some(kids@[j].1 as int));
                        assert(before[kids@[j].1 as int] == Visit::Done);
                    }
                }
            }
            i += 1;
        }
        let ghost last: Seq<Visit> = marks@;
        marks.set(pos, Visit::Done);
        proof {
            time@ = time@ + 1;
            let old_rank = rank@;
            rank@ = rank@.update(pos as int, time@);
            lemma_children(a, pos as int, 256);
            assert forall|p: int, c: u8|
                #![trigger hop(a, p, c)]
                0 <= p < a.len() && marks@[p] == Visit::Done && hop(a, p, c) is Some implies {
                let q = hop(a, p, c)->0;
                marks@[q] == Visit::Done && rank@[q] < rank@[p]
            } by {
                let q = hop(a, p, c)->0;
                assert(trie::step(a, p, c) == Some(q));
                if p == pos {
                    let j = choose|j: int| 0 <= j < kids@.len() && (#[trigger] kids@[j]).0 == c;
                    assert(last[q] == Visit::Done);
                    assert(last[pos as int] == Visit::Open);
                    assert(old_rank[q] <= time@ - 1);
                } else {
                    assert(last[q] == Visit::Done);
                    assert(last[pos as int] == Visit::Open);
                }
            }
        }
        true
    }

    /// Whether all keys can be listed: none of them goes on without end.
    pub fn is_finite(&self) -> (res: bool)
        requires
            self.wf(),
        ensures
            res <==> exists|height: nat| #[trigger] finite(self.units(), 0, height),
    {
        let ghost a: Seq<u32> = self.units();
        let n: usize = self.len();
        let mut marks: Vec<Visit> = vec![Visit::New; n];
        let mut rank: Ghost<Seq<nat>> = Ghost(Seq::new(a.len(), |i: int| 0nat));
        let mut time: Ghost<nat> = Ghost(0);
        let res: bool = self.visit(0, &mut marks, &mut rank, &mut time);
        proof {
            if res {
                assert(finite(a, 0, rank@[0])) by {
                    assert forall|k: Seq<u8>| (#[trigger] trail(a, 0, k)) is Some implies k.len() <= rank@[0] by {
                        lemma_ranked(a, marks@, rank@, 0, k);
                    }
                }
            } else {
                assert forall|height: nat| !#[trigger] finite(a, 0, height) by {
                    let k = lemma_endless(a, 0, height + 1);
                    assert(trail(a, 0, k) is Some);
                }
            }
        }
        res
    }

    /// Lists all keys with their values, in ascending order.
    pub fn list_all_keys(&self) -> (res: Vec<(Vec<u8>, i32)>)
        requires
            self.wf(),
            exists|height: nat| #[trigger] finite(self.units(), 0, height),
        ensures
            listed(self.units(), found(res@)),
    {
        let ghost a: Seq<u32> = self.units();
        let mut results: Vec<(Vec<u8>, i32)> = Vec::new();
        let mut prefix: Vec<u8> = Vec::new();
        self.list_keys_recursive(0, &mut prefix, &mut results);
        proof {
            let s = found(results@);
            let none = Seq::<u8>::empty();
            assert(s.skip(0) =~= s);
            assert forall|k: Seq<u8>, v: i32| #[trigger] s.contains((k, v)) <==> entry(a, 0, k) == Some(v) by {
                assert(none + k =~= k);
                if s.contains((k, v)) {
                    let i = choose|i: int| 0 <= i < s.len() && s[i] == (k, v);
                    assert(s[i].0.skip(0) =~= k);
                }
            }
        }
        results
    }
}

} // verus!
