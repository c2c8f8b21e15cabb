//! The units of a word graph.
//!
//! The children of a state are a chain: neighbouring units with ascending labels. A
//! unit with label zero ends a key and holds its value; any other unit names the chain
//! of its children, which always lies before it.

use vstd::prelude::*;
use crate::bits;
use crate::bits::BitVector;
use crate::trie;
use crate::trie::Dict;

verus! {

/// Units are numbered below this bound, so that a unit can hold the number of another.
pub const UNIT_LIMIT: usize = 0x4000_0000;

/// The chain that a unit names.
pub open spec fn unit_child(w: u32) -> u32 {
    w >> 2
}

/// Whether another unit of the chain follows.
pub open spec fn unit_sibling(w: u32) -> bool {
    w & 1 == 1
}

/// The value of a unit that ends a key.
pub open spec fn unit_value(w: u32) -> i32 {
    (w >> 1) as i32
}

/// Whether a unit with a label other than zero is the first of its chain.
pub open spec fn unit_state(w: u32) -> bool {
    w & 2 == 2
}

/// A unit of a finished state.
#[derive(Clone, Copy, Debug)]
pub struct DawgUnit(pub u32);

impl DawgUnit {
    /// The chain that this unit names.
    pub fn child(&self) -> (res: u32)
        ensures
            res == unit_child(self.0),
    {
        self.0 >> 2
    }

    /// Whether another unit of the chain follows.
    pub fn has_sibling(&self) -> (res: bool)
        ensures
            res == unit_sibling(self.0),
    {
        (self.0 & 1) == 1
    }

    /// The value of this unit, if it ends a key.
    pub fn value(&self) -> (res: i32)
        ensures
            res == unit_value(self.0),
            res >= 0,
    {
        proof {
            law_chain_unit(self.0);
        }
        (self.0 >> 1) as i32
    }

    /// Whether this unit, if its label is not zero, is the first of its chain.
    pub fn is_state(&self) -> (res: bool)
        ensures
            res == unit_state(self.0),
    {
        (self.0 & 2) == 2
    }
}

/// What is known of a chain: how many units it has, how many edges the tree below it
/// would have if nothing were shared, and the keys below it.
pub struct Chain {
    pub len: nat,
    pub weight: nat,
    pub den: Dict,
}

/// The units of a word graph, with their labels and the marks of the chains that are reached
/// twice.
#[verifier::ext_equal]
pub struct Graph {
    pub units: Seq<u32>,
    pub labels: Seq<u8>,
    pub marks: Seq<bool>,
}

/// The units, with their labels and the marks of the chains that are reached twice.
pub struct UnitStore {
    pub units: Vec<DawgUnit>,
    pub labels: Vec<u8>,
    pub is_intersections: BitVector,
    /// The chains, by the number of their first unit.
    pub chains: Ghost<Map<u32, Chain>>,
}

impl UnitStore {
    pub open spec fn len(&self) -> int {
        self.units@.len() as int
    }

    /// What the store holds.
    pub open spec fn graph(&self) -> Graph {
        Graph {
            units: Seq::new(self.units@.len(), |i: int| self.units@[i].0),
            labels: self.labels@,
            marks: self.is_intersections@,
        }
    }

    /// The `i`th unit of the chain `u`.
    pub open spec fn word(&self, u: u32, i: int) -> u32 {
        self.units@[u + i].0
    }

    /// The label of the `i`th unit of the chain `u`.
    pub open spec fn lab(&self, u: u32, i: int) -> u8 {
        self.labels@[u + i]
    }

    pub open spec fn has_label(&self, u: u32, c: u8) -> bool {
        exists|i: int| 0 <= i < self.chains@[u].len && #[trigger] self.lab(u, i) == c
    }

    /// The labels of a chain.
    pub open spec fn chain_labels(&self, u: u32) -> Seq<u8> {
        Seq::new(self.chains@[u].len, |i: int| self.lab(u, i))
    }

    /// What the `i`th unit of the chain `u` adds to its weight.
    pub open spec fn load(&self, u: u32, i: int) -> nat {
        if self.lab(u, i) == 0 {
            1
        } else {
            1 + self.chains@[unit_child(self.word(u, i))].weight
        }
    }

    /// What the first `n` units of the chain `u` add to its weight.
    pub open spec fn loads(&self, u: u32, n: nat) -> nat
        decreases n,
    {
        if n == 0 {
            0
        } else {
            self.loads(u, (n - 1) as nat) + self.load(u, n - 1)
        }
    }

    /// The `i`th unit of the chain `u` stands for the keys that begin with its label.
    pub open spec fn entry_ok(&self, u: u32, i: int) -> bool {
        let v = unit_child(self.word(u, i));
        &&& unit_sibling(self.word(u, i)) == (i + 1 < self.chains@[u].len)
        &&& self.lab(u, i) != 0 ==> {
            &&& self.chains@.contains_key(v)
            &&& v + self.chains@[v].len <= u
            &&& forall|k: Seq<u8>|
                #[trigger] (self.chains@[u].den)(trie::cons(self.lab(u, i), k)) == (self.chains@[v].den)(k)
        }
    }

    /// The chain `u` lies below `limit` and stands for its keys.
    pub open spec fn chain_ok(&self, u: u32, limit: int) -> bool {
        let ch = self.chains@[u];
        &&& 1 <= u
        &&& 1 <= ch.len
        &&& u + ch.len <= limit
        &&& forall|i: int| 0 <= i < ch.len ==> #[trigger] self.entry_ok(u, i)
        &&& forall|i: int, j: int|
            #![trigger self.lab(u, i), self.lab(u, j)]
            0 <= i < j < ch.len ==> self.lab(u, i) < self.lab(u, j)
        &&& (ch.den)(Seq::empty()) == (if self.lab(u, 0) == 0 {
            Some(unit_value(self.word(u, 0)))
        } else {
            None
        })
        &&& forall|c: u8, k: Seq<u8>|
            c == 0 || !self.has_label(u, c) ==> (#[trigger] (ch.den)(trie::cons(c, k))) is None
        &&& exists|k: Seq<u8>| (#[trigger] (ch.den)(k)) is Some
        &&& ch.weight == self.loads(u, ch.len)
    }

    /// The chains below `limit` are in order, and every unit below `limit` that looks like
    /// the first of a chain is one.
    pub open spec fn wf_below(&self, limit: int) -> bool {
        &&& self.labels@.len() == self.units@.len()
        &&& self.is_intersections@.len() == self.units@.len()
        &&& self.is_intersections.wf()
        &&& 1 <= limit <= self.len() <= 0x4000_0000
        &&& forall|u: u32| #[trigger] self.chains@.contains_key(u) ==> self.chain_ok(u, limit)
        &&& forall|u: u32|
            #![trigger self.chains@.contains_key(u)]
            1 <= u < limit && (self.labels@[u as int] == 0 || unit_state(self.units@[u as int].0))
                ==> self.chains@.contains_key(u)
    }

    pub open spec fn wf(&self) -> bool {
        self.wf_below(self.len())
    }

    /// Every chain of `old` is a chain of `self`, with the same meaning.
    pub open spec fn keeps(&self, old: &UnitStore) -> bool {
        &&& old.len() <= self.len()
        &&& forall|u: u32|
            #[trigger] old.chains@.contains_key(u) ==> self.chains@.contains_key(u) && self.chains@[u]
                == old.chains@[u]
    }
}

/// The weight of a chain depends on its units alone.
proof fn lemma_loads_frame(a: UnitStore, b: UnitStore, u: u32, n: nat)
    requires
        forall|i: int| 0 <= i < n ==> #[trigger] a.load(u, i) == b.load(u, i),
    ensures
        a.loads(u, n) == b.loads(u, n),
    decreases n,
{
    if n > 0 {
        lemma_loads_frame(a, b, u, (n - 1) as nat);
        assert(a.load(u, n - 1) == b.load(u, n - 1));
    }
}

/// A chain keeps its meaning while units and chains are added behind it.
pub proof fn lemma_chain_frame(a: UnitStore, b: UnitStore, u: u32, limit: int, more: int)
    requires
        a.chains@.contains_key(u),
        a.chain_ok(u, limit),
        forall|v: u32| #[trigger] a.chains@.contains_key(v) ==> b.chains@.contains_key(v) && b.chains@[v]
            == a.chains@[v],
        limit <= more,
        limit <= a.len(),
        limit <= b.len(),
        a.labels@.len() == a.len(),
        b.labels@.len() == b.len(),
        forall|i: int| #![trigger b.units@[i]] 1 <= i < limit ==> b.units@[i] == a.units@[i],
        forall|i: int| #![trigger b.labels@[i]] 1 <= i < limit ==> b.labels@[i] == a.labels@[i],
    ensures
        b.chain_ok(u, more),
{
    let n = a.chains@[u].len;
    assert forall|i: int| 0 <= i < n implies #[trigger] b.entry_ok(u, i) by {
        assert(a.entry_ok(u, i));
        assert(b.word(u, i) == a.word(u, i));
        assert(b.lab(u, i) == a.lab(u, i));
        let v = unit_child(a.word(u, i));
        if a.lab(u, i) != 0 {
            assert(b.chains@[v] == a.chains@[v]);
            assert forall|k: Seq<u8>| #[trigger] (b.chains@[u].den)(trie::cons(b.lab(u, i), k)) == (
            b.chains@[v].den)(k) by {
                assert((a.chains@[u].den)(trie::cons(a.lab(u, i), k)) == (a.chains@[v].den)(k));
            }
        }
    }
    assert forall|i: int, j: int| #![trigger b.lab(u, i), b.lab(u, j)] 0 <= i < j < n implies b.lab(u, i)
        < b.lab(u, j) by {
        assert(a.lab(u, i) < a.lab(u, j));
    }
    assert forall|c: u8, k: Seq<u8>| c == 0 || !b.has_label(u, c) implies (#[trigger] (b.chains@[u].den)(
        trie::cons(c, k),
    )) is None by {
        if c != 0 && a.has_label(u, c) {
            let i = choose|i: int| 0 <= i < n && #[trigger] a.lab(u, i) == c;
            assert(b.lab(u, i) == c);
        }
        assert((a.chains@[u].den)(trie::cons(c, k)) is None);
    }
    assert forall|i: int| 0 <= i < n implies #[trigger] a.load(u, i) == b.load(u, i) by {
        assert(a.entry_ok(u, i));
    }
    lemma_loads_frame(a, b, u, n);
    assert(a.lab(u, 0) == b.lab(u, 0));
    assert(a.word(u, 0) == b.word(u, 0));
}

/// The dictionary of `m` units from `u` on.
pub open spec fn chain_dict(s: UnitStore, u: u32, m: nat) -> Dict {
    |k: Seq<u8>|
        if k.len() == 0 {
            if s.lab(u, 0) == 0 {
                Some(unit_value(s.word(u, 0)))
            } else {
                None
            }
        } else if k[0] != 0 && exists|i: int| 0 <= i < m && #[trigger] s.lab(u, i) == k[0] {
            let i = choose|i: int| 0 <= i < m && #[trigger] s.lab(u, i) == k[0];
            (s.chains@[unit_child(s.word(u, i))].den)(k.drop_first())
        } else {
            None
        }
}

/// Units that were written behind the chains become a chain.
pub proof fn lemma_new_chain(a: UnitStore, b: UnitStore, first: u32, m: nat)
    requires
        a.wf_below(first as int),
        a.len() == first + m,
        m >= 1,
        forall|i: int, j: int|
            #![trigger a.lab(first, i), a.lab(first, j)]
            0 <= i < j < m ==> a.lab(first, i) < a.lab(first, j),
        forall|i: int|
            #![trigger a.word(first, i)]
            0 <= i < m ==> {
                &&& unit_sibling(a.word(first, i)) == (i + 1 < m)
                &&& a.lab(first, i) != 0 ==> a.chains@.contains_key(unit_child(a.word(first, i)))
                &&& i > 0 ==> !unit_state(a.word(first, i))
            },
        b == (UnitStore {
            chains: Ghost(
                a.chains@.insert(
                    first,
                    Chain { len: m, weight: a.loads(first, m), den: chain_dict(a, first, m) },
                ),
            ),
            ..a
        }),
    ensures
        b.wf(),
        b.keeps(&a),
{
    let den = chain_dict(a, first, m);
    assert(!a.chains@.contains_key(first)) by {
        if a.chains@.contains_key(first) {
            assert(a.chain_ok(first, first as int));
        }
    }
    assert forall|u: u32| #[trigger] b.chains@.contains_key(u) implies b.chain_ok(u, b.len()) by {
        if u != first {
            assert(a.chains@.contains_key(u));
            lemma_chain_frame(a, b, u, first as int, b.len());
        } else {
            assert(b.chains@[first].den == den);
            assert forall|i: int| 0 <= i < m implies #[trigger] b.entry_ok(first, i) by {
                let c = a.lab(first, i);
                let v = unit_child(a.word(first, i));
                assert(b.word(first, i) == a.word(first, i));
                if c != 0 {
                    assert(a.chains@.contains_key(v));
                    assert(a.chain_ok(v, first as int));
                    assert(b.chains@[v] == a.chains@[v]);
                    assert forall|k: Seq<u8>| #[trigger] den(trie::cons(c, k)) == (a.chains@[v].den)(k) by {
                        let key = trie::cons(c, k);
                        assert(key[0] == c);
                        assert(key.drop_first() =~= k);
                        let j = choose|j: int| 0 <= j < m && #[trigger] a.lab(first, j) == key[0];
                        assert(a.lab(first, i) == a.lab(first, j));
                        assert(i == j);
                    }
                }
            }
            assert forall|i: int, j: int| #![trigger b.lab(u, i), b.lab(u, j)] 0 <= i < j < m implies b.lab(u, i)
                < b.lab(u, j) by {
                assert(a.lab(u, i) < a.lab(u, j));
            }
            assert forall|c: u8, k: Seq<u8>| c == 0 || !b.has_label(u, c) implies (#[trigger] den(
                trie::cons(c, k),
            )) is None by {
                let key = trie::cons(c, k);
                assert(key[0] == c);
                if c != 0 && exists|i: int| 0 <= i < m && #[trigger] a.lab(u, i) == key[0] {
                    let i = choose|i: int| 0 <= i < m && #[trigger] a.lab(u, i) == key[0];
                    assert(b.lab(u, i) == c);
                }
            }
            assert(b.lab(u, 0) == a.lab(u, 0));
            assert(b.word(u, 0) == a.word(u, 0));
            if a.lab(u, 0) == 0 {
                assert(den(Seq::empty()) is Some);
            } else {
                let v = unit_child(a.word(u, 0));
                assert(b.entry_ok(first, 0));
                assert(a.chain_ok(v, first as int));
                let k = choose|k: Seq<u8>| (#[trigger] (a.chains@[v].den)(k)) is Some;
                assert(den(trie::cons(a.lab(u, 0), k)) is Some);
            }
            assert forall|i: int| 0 <= i < m implies #[trigger] a.load(u, i) == b.load(u, i) by {
                assert(a.word(u, i) == b.word(u, i));
            }
            lemma_loads_frame(a, b, u, m);
        }
    }
    assert forall|u: u32|
        #![trigger b.chains@.contains_key(u)]
        1 <= u < b.len() && (b.labels@[u as int] == 0 || unit_state(b.units@[u as int].0)) implies b.chains@.contains_key(u) by {
        if u < first {
            assert(a.chains@.contains_key(u));
        } else if u > first {
            let i = u - first;
            assert(a.word(first, i) == b.units@[u as int].0);
            assert(a.lab(first, 0) < a.lab(first, i));
        }
    }
}

/// The numbers of an entry, mixed.
pub open spec fn mix(key: u32) -> u32 {
    let a = !key.wrapping_add(key << 15);
    let b = a ^ (a >> 12);
    let c = b.wrapping_add(b << 2);
    let d = c ^ (c >> 4);
    let e = d.wrapping_mul(2057);
    e ^ (e >> 16)
}

/// The hash of a chain, given the labels and numbers of its entries.
pub open spec fn entries_hash(entries: Seq<(u8, u32)>) -> u32
    decreases entries.len(),
{
    if entries.len() == 0 {
        0
    } else {
        let (label, word) = entries.last();
        entries_hash(entries.drop_last()) ^ mix(((label as u32) << 24) ^ word)
    }
}

/// Mixes the bits of a number.
pub fn hash(key: u32) -> (res: u32)
    ensures
        res == mix(key),
{
    let mut key: u32 = key;
    key = !key.wrapping_add(key << 15);
    key = key ^ (key >> 12);
    key = key.wrapping_add(key << 2);
    key = key ^ (key >> 4);
    key = key.wrapping_mul(2057);
    key = key ^ (key >> 16);
    key
}

impl UnitStore {
    /// The entries of the chain `u`.
    pub open spec fn entries(&self, u: u32) -> Seq<(u8, u32)> {
        Seq::new(self.chains@[u].len, |i: int| (self.lab(u, i), self.word(u, i)))
    }

    /// No units.
    pub fn new() -> (res: UnitStore)
        ensures
            res.len() == 0,
            res.labels@.len() == 0,
            res.is_intersections@.len() == 0,
            res.is_intersections.wf(),
            res.chains@ == Map::<u32, Chain>::empty(),
    {
        UnitStore {
            units: Vec::new(),
            labels: Vec::new(),
            is_intersections: BitVector::new(),
            chains: Ghost(Map::empty()),
        }
    }

    /// Adds a blank unit and returns its number.
    pub fn append_unit(&mut self) -> (res: u32)
        requires
            old(self).labels@.len() == old(self).len(),
            old(self).is_intersections@.len() == old(self).len(),
            old(self).is_intersections.wf(),
            old(self).len() < 0x4000_0000,
        ensures
            res == old(self).len(),
            final(self).units@ == old(self).units@.push(DawgUnit(0)),
            final(self).labels@ == old(self).labels@.push(0),
            final(self).is_intersections@ == old(self).is_intersections@.push(false),
            final(self).is_intersections.wf(),
            final(self).chains == old(self).chains,
    {
        self.is_intersections.append();
        assert(self.is_intersections@.len() == self.is_intersections.size);
        self.units.push(DawgUnit(0));
        self.labels.push(0);
        (self.is_intersections.size - 1) as u32
    }

    /// The hash of the chain that begins at `id`.
    pub fn hash_unit(&self, id: u32) -> (res: u32)
        requires
            self.wf(),
            self.chains@.contains_key(id),
        ensures
            res == entries_hash(self.entries(id)),
    {
        let ghost es: Seq<(u8, u32)> = self.entries(id);
        let mut hash_value: u32 = 0;
        let mut current: u32 = id;
        let ghost mut n: int = 0;
        assert(self.chain_ok(id, self.len()));
        assert(es.take(0) =~= Seq::<(u8, u32)>::empty());
        assert(entries_hash(es.take(0)) == 0);
        while current != 0
            invariant_except_break
                n < es.len(),
                hash_value == entries_hash(es.take(n)),
            invariant
                self.wf(),
                self.chains@.contains_key(id),
                es == self.entries(id),
                current == id + n,
                0 <= n,
                self.chain_ok(id, self.len()),
            ensures
                hash_value == entries_hash(es),
            decreases es.len() - n,
        {
            let unit: u32 = self.units[current as usize].0;
            let label: u8 = self.labels[current as usize];
            proof {
                assert(self.entry_ok(id, n));
                assert(es[n] == (self.lab(id, n), self.word(id, n)));
                assert(es.take(n + 1).drop_last() =~= es.take(n));
                assert(es.take(n + 1).last() == es[n]);
            }
            let mixed: u32 = hash(((label as u32) << 24) ^ unit);
            hash_value = hash_value ^ mixed;
            if !self.units[current as usize].has_sibling() {
                assert(es.take(n + 1) =~= es);
                break;
            }
            current += 1;
            proof {
                n = n + 1;
            }
        }
        hash_value
    }

    /// The chain below unit `id`.
    pub fn child(&self, id: u32) -> (res: u32)
        requires
            id < self.len(),
        ensures
            res == unit_child(self.units@[id as int].0),
    {
        self.units[id as usize].child()
    }

    /// The unit that follows `id` in its chain, or zero.
    pub fn sibling(&self, id: u32) -> (res: u32)
        requires
            id < self.len() <= 0x4000_0000,
        ensures
            res == (if unit_sibling(self.units@[id as int].0) {
                id + 1
            } else {
                0
            }),
    {
        if self.units[id as usize].has_sibling() {
            id + 1
        } else {
            0
        }
    }

    /// The value of unit `id`.
    pub fn value(&self, id: u32) -> (res: i32)
        requires
            id < self.len(),
        ensures
            res == unit_value(self.units@[id as int].0),
            res >= 0,
    {
        self.units[id as usize].value()
    }

    /// Whether unit `id` ends a key.
    pub fn is_leaf(&self, id: u32) -> (res: bool)
        requires
            id < self.labels@.len(),
        ensures
            res == (self.labels@[id as int] == 0),
    {
        self.label(id) == 0
    }

    /// The label of unit `id`.
    pub fn label(&self, id: u32) -> (res: u8)
        requires
            id < self.labels@.len(),
        ensures
            res == self.labels@[id as int],
    {
        self.labels[id as usize]
    }

    /// Whether the chain `id` is reached more than once.
    pub fn is_intersection(&self, id: u32) -> (res: bool)
        requires
            self.is_intersections.wf(),
            id < self.is_intersections@.len(),
        ensures
            res == (id != 0 && self.is_intersections@[id as int]),
    {
        id != 0 && self.is_intersections.get(id as usize)
    }

    /// The number of intersections before the chain `id`.
    pub fn intersection_id(&self, id: u32) -> (res: u32)
        requires
            self.is_intersections.ranked(),
            id <= self.is_intersections@.len() <= u32::MAX,
        ensures
            res == bits::ones(self.is_intersections@.take(id as int)),
    {
        self.is_intersections.rank(id as usize)
    }

    /// The number of intersections.
    pub fn num_intersections(&self) -> (res: usize)
        requires
            self.is_intersections.ranked(),
        ensures
            res == bits::ones(self.is_intersections@),
    {
        self.is_intersections.num_ones
    }
}

/// The numbers that a unit of a chain holds. The lowest bit tells whether another unit follows;
/// of a unit that ends a key, what is above it is the value; of another one, the next bit tells
/// whether it is the first of its chain, and what is above that names a chain.
pub proof fn law_chain_unit(w: u32)
    ensures
        unit_sibling(w) <==> w % 2 == 1,
        unit_value(w) == w / 2,
        unit_state(w) <==> (w / 2) % 2 == 1,
        unit_child(w) == w / 4,
{
    assert({
        &&& (w & 1 == 1 <==> w % 2 == 1)
        &&& w >> 1 == w / 2
        &&& (w & 2 == 2 <==> (w / 2) % 2 == 1)
        &&& w >> 2 == w / 4
    }) by (bit_vector);
}

/// How the bits of a number are mixed: it is added to 32768 times itself and subtracted from the
/// largest number, the result is combined with its part above 12 bits, multiplied by 5, combined
/// with its part above 4 bits, multiplied by 2057, and combined with its part above 16 bits. To
/// combine is to take the exclusive or, and multiples of 2^32 do not count.
pub proof fn law_mix(key: u32)
    ensures
        ({
            let a = (0xFFFF_FFFF - (key as int * 32769) % 0x1_0000_0000) as u32;
            let b = a ^ ((a / 4096) as u32);
            let c = ((b as int * 5) % 0x1_0000_0000) as u32;
            let d = c ^ ((c / 16) as u32);
            let e = ((d as int * 2057) % 0x1_0000_0000) as u32;
            mix(key) == e ^ ((e / 65536) as u32)
        }),
{
    let x = key.wrapping_add(key << 15);
    let a = !x;
    let b = a ^ (a >> 12);
    let c = b.wrapping_add(b << 2);
    let d = c ^ (c >> 4);
    let e = d.wrapping_mul(2057);
    lemma_mix_bits(key, x, a, b, c, e);
    lemma_wrapped(key, key << 15, 32768);
    lemma_wrapped(b, b << 2, 4);
    assert(e == (d as int * 2057) % 0x1_0000_0000);
}

proof fn lemma_mix_bits(key: u32, x: u32, a: u32, b: u32, c: u32, e: u32)
    ensures
        key << 15 == (key as int * 32768) % 0x1_0000_0000,
        !x == 0xFFFF_FFFF - x,
        a >> 12 == a / 4096,
        b << 2 == (b as int * 4) % 0x1_0000_0000,
        c >> 4 == c / 16,
        e >> 16 == e / 65536,
{
    assert({
        &&& key << 15 == (key * 32768) % 0x1_0000_0000
        &&& !x == 0xFFFF_FFFF - x
        &&& a >> 12 == a / 4096
        &&& b << 2 == (b * 4) % 0x1_0000_0000
        &&& c >> 4 == c / 16
        &&& e >> 16 == e / 65536
    }) by (bit_vector);
}

proof fn lemma_wrapped(x: u32, y: u32, k: int)
    requires
        y == (x as int * k) % 0x1_0000_0000,
    ensures
        x.wrapping_add(y) == (x as int * (k + 1)) % 0x1_0000_0000,
{
    let m = 0x1_0000_0000int;
    vstd::arithmetic::div_mod::lemma_add_mod_noop_right(x as int, x as int * k, m);
    assert(x as int * (k + 1) == x + x as int * k) by (nonlinear_arith);
    if x + y >= m {
        vstd::arithmetic::div_mod::lemma_mod_sub_multiples_vanish(x + y, m);
        vstd::arithmetic::div_mod::lemma_small_mod((x + y - m) as nat, m as nat);
    } else {
        vstd::arithmetic::div_mod::lemma_small_mod((x + y) as nat, m as nat);
    }
}

} // verus!
