//! A word graph under construction.
//!
//! Keys come in ascending order. Only the path of the last key and what hangs off it is
//! still made of nodes. Once no further key can pass through a node, its children become
//! a chain of units, or an equal chain that is already there is used in their place.

use vstd::prelude::*;
use crate::chains;
use crate::chains::{Chain, DawgUnit, UnitStore};
use crate::error::BuildError;
use crate::nodes;
use crate::nodes::{DawgNode, NodeForest};
use crate::sketch;
use crate::sketch::Sketch;
use crate::trie;
use crate::trie::Dict;
use crate::words;

verus! {

/// The size of the table of chains at the start.
pub const INITIAL_TABLE_SIZE: usize = 1024;

/// Builds a word graph.
pub struct DawgBuilder {
    pub forest: NodeForest,
    pub store: UnitStore,
    pub table: Vec<u32>,
    pub num_states: usize,
    /// The edges below each node of the path, those of shared chains counted each time.
    pub loads: Ghost<Seq<nat>>,
    /// The nodes that were made.
    pub made: Ghost<nat>,
    /// The keys that were inserted, with their values.
    pub dict: Ghost<Dict>,
    /// The keys that were cut at a zero byte.
    pub cuts: Ghost<Set<Seq<u8>>>,
}

impl DawgBuilder {
    /// The table holds chains and empty places.
    pub open spec fn table_ok(&self) -> bool {
        &&& 1024 <= self.table@.len() <= 0xB000_0000
        &&& forall|h: int|
            #![trigger self.table@[h]]
            0 <= h < self.table@.len() && self.table@[h] != 0 ==> self.store.chains@.contains_key(self.table@[h])
    }

    /// An empty place in the table for the chain `id`.
    fn find_unit(&self, id: u32) -> (res: (usize, u32))
        requires
            self.store.wf(),
            self.store.chains@.contains_key(id),
            0 < self.table@.len() <= 0xB000_0000,
        ensures
            res.0 == sketch::probe(
                self.table@,
                chains::entries_hash(self.store.entries(id)) as int % self.table@.len() as int,
                0,
            ),
            res.0 < self.table@.len(),
            res.1 == 0,
    {
        let len: usize = self.table.len();
        let start_hash_id: usize = self.store.hash_unit(id) as usize % len;
        let mut hash_id: usize = start_hash_id;
        let ghost mut n: int = 0;
        loop
            invariant_except_break
                n < len,
                sketch::probe(self.table@, start_hash_id as int, n) == sketch::probe(self.table@, start_hash_id as int, 0),
                hash_id == sketch::probe_at(start_hash_id as int, n, len as int),
            invariant
                0 <= n,
                len == self.table@.len(),
                len <= 0xB000_0000,
                start_hash_id < len,
            ensures
                hash_id == sketch::probe(self.table@, start_hash_id as int, 0),
                hash_id < len,
            decreases len - n,
        {
            let unit_id: u32 = self.table[hash_id];
            if unit_id == 0 {
                break;
            }
            hash_id = if hash_id + 1 == len {
                0
            } else {
                hash_id + 1
            };
            proof {
                n = n + 1;
            }
            assert(sketch::probe(self.table@, start_hash_id as int, n) == sketch::probe(self.table@, start_hash_id as int, 0));
            if hash_id == start_hash_id {
                assert(n == len);
                break;
            }
        }
        (hash_id, 0)
    }

    /// Makes the table twice as large.
    fn expand_table(&mut self)
        requires
            old(self).store.wf(),
            1024 <= old(self).table@.len() <= 0x5800_0000,
        ensures
            final(self).table@ == sketch::rehash(
                old(self).store.graph(),
                2 * old(self).table@.len() as nat,
                old(self).store.len(),
            ),
            final(self).table_ok(),
            *final(self) == (DawgBuilder { table: final(self).table, ..*old(self) }),
    {
        let table_size: usize = self.table.len() * 2;
        self.table = vec![0; table_size];
        let mut i: usize = 1;
        assert(self.table@ =~= sketch::rehash(self.store.graph(), table_size as nat, 1));
        while i < self.store.units.len()
            invariant
                1 <= i <= self.store.len(),
                self.store.wf(),
                self.store == old(self).store,
                *self == (DawgBuilder { table: self.table, ..*old(self) }),
                self.table@ == sketch::rehash(self.store.graph(), table_size as nat, i as int),
                self.table@.len() == table_size,
                self.table_ok(),
            decreases self.store.len() - i,
        {
            if self.store.labels[i] == 0 || self.store.units[i].is_state() {
                proof {
                    assert(self.store.chains@.contains_key(i as u32));
                    assert(self.store.chain_ok(i as u32, self.store.len()));
                    sketch::lemma_entries_from(self.store, i as u32, 0);
                }
                let (hash_id, _) = self.find_unit(i as u32);
                self.table.set(hash_id, i as u32);
            }
            i += 1;
        }
    }

    /// Whether the children of the last node would become a chain like `unit_id`, entry by
    /// entry.
    fn are_equal(&self, node_id: u32, unit_id: u32, Ghost(open): Ghost<int>) -> (res: bool)
        requires
            self.forest.shape(open),
            self.forest.hanging().len() > 0,
            node_id == self.forest.hanging()[0],
            self.store.wf(),
            self.store.chains@.contains_key(unit_id),
        ensures
            res == (self.forest.entries() == self.store.entries(unit_id)),
    {
        let ghost l: Seq<u32> = self.forest.hanging();
        let ghost d: int = self.forest.depth();
        let ghost m: int = self.store.chains@[unit_id].len as int;
        let ghost es: Seq<(u8, u32)> = self.forest.entries();
        let ghost us: Seq<(u8, u32)> = self.store.entries(unit_id);
        assert(self.store.chain_ok(unit_id, self.store.len()));
        assert(self.forest.listed(d, 0));
        assert(self.forest.item_ok(d, 0, open));
        let mut node_count: u32 = 0;
        let mut current_node: u32 = node_id;
        proof {
            lemma_list_len(self.forest, open);
        }
        while current_node != 0
            invariant
                self.forest.shape(open),
                l == self.forest.hanging(),
                d == self.forest.depth(),
                l.len() <= 0x4000_0000,
                node_count <= l.len(),
                current_node == (if node_count < l.len() {
                    l[node_count as int]
                } else {
                    0
                }),
            decreases l.len() - node_count,
        {
            assert(self.forest.listed(d, node_count as int));
            assert(self.forest.item_ok(d, node_count as int, open));
            node_count += 1;
            current_node = self.forest.nodes[current_node as usize].sibling;
        }
        proof {
            if node_count < l.len() {
                assert(self.forest.listed(d, node_count as int));
                assert(self.forest.item_ok(d, node_count as int, open));
            }
        }
        let mut unit_count: u32 = 0;
        let mut current_unit: u32 = unit_id;
        while current_unit != 0
            invariant_except_break
                unit_count < m,
                current_unit == unit_id + unit_count,
            invariant
                self.store.wf(),
                self.store.chains@.contains_key(unit_id),
                self.store.chain_ok(unit_id, self.store.len()),
                m == self.store.chains@[unit_id].len,
            ensures
                unit_count == m,
            decreases m - unit_count,
        {
            assert(self.store.entry_ok(unit_id, unit_count as int));
            assert(self.store.word(unit_id, unit_count as int) == self.store.units@[current_unit as int].0);
            unit_count += 1;
            if !self.store.units[current_unit as usize].has_sibling() {
                break;
            }
            current_unit += 1;
        }
        if node_count != unit_count {
            assert(es.len() != us.len());
            return false;
        }
        let unit_id_end: u32 = unit_id + unit_count;
        let mut node: u32 = node_id;
        let mut unit: u32 = unit_id;
        let ghost mut n: int = 0;
        while node != 0
            invariant
                self.forest.shape(open),
                self.store.wf(),
                self.store.chains@.contains_key(unit_id),
                self.store.chain_ok(unit_id, self.store.len()),
                l == self.forest.hanging(),
                d == self.forest.depth(),
                m == self.store.chains@[unit_id].len,
                l.len() == m,
                es == self.forest.entries(),
                us == self.store.entries(unit_id),
                unit_id_end == unit_id + m,
                0 <= n <= m,
                unit == unit_id + n,
                node == (if n < l.len() {
                    l[n]
                } else {
                    0
                }),
                forall|i: int| 0 <= i < n ==> es[i] == us[i],
            decreases m - n,
        {
            assert(self.forest.listed(d, n));
            assert(self.forest.item_ok(d, n, open));
            if unit >= unit_id_end {
                return false;
            }
            assert(es[n] == (self.forest.node(l[n]).label, nodes::node_unit(self.forest.node(l[n]))));
            assert(us[n] == (self.store.lab(unit_id, n), self.store.word(unit_id, n)));
            if self.forest.nodes[node as usize].unit() != self.store.units[unit as usize].0
                || self.forest.nodes[node as usize].label != self.store.labels[unit as usize] {
                assert(es[n] != us[n]);
                return false;
            }
            node = self.forest.nodes[node as usize].sibling;
            unit += 1;
            proof {
                n = n + 1;
            }
        }
        proof {
            if n < l.len() {
                assert(self.forest.listed(d, n));
                assert(self.forest.item_ok(d, n, open));
            }
            assert(es =~= us);
        }
        true
    }

    /// Where in the table a chain like the children of the last node is or would go, and
    /// that chain or zero.
    fn find_node(&self, node_id: u32, Ghost(open): Ghost<int>) -> (res: (usize, u32))
        requires
            self.forest.shape(open),
            self.forest.hanging().len() > 0,
            node_id == self.forest.hanging()[0],
            self.store.wf(),
            self.table_ok(),
        ensures
            (res.0 as int, res.1) == sketch::seek(
                self.table@,
                self.store.graph(),
                self.forest.entries(),
                chains::entries_hash(self.forest.entries()) as int % self.table@.len() as int,
                0,
            ),
            res.0 < self.table@.len(),
            res.1 != 0 ==> self.store.chains@.contains_key(res.1) && self.store.entries(res.1)
                == self.forest.entries(),
    {
        let ghost es: Seq<(u8, u32)> = self.forest.entries();
        let len: usize = self.table.len();
        let start_hash_id: usize = self.forest.hash_node(node_id, Ghost(open)) as usize % len;
        let mut hash_id: usize = start_hash_id;
        let ghost start: int = start_hash_id as int;
        let ghost mut n: int = 0;
        loop
            invariant_except_break
                n < len,
                sketch::seek(self.table@, self.store.graph(), es, start, n) == sketch::seek(self.table@, self.store.graph(), es, start, 0),
                hash_id == sketch::probe_at(start, n, len as int),
            invariant
                0 <= n,
                len == self.table@.len(),
                start_hash_id < len,
                start == start_hash_id,
                es == self.forest.entries(),
                self.forest.shape(open),
                self.forest.hanging().len() > 0,
                node_id == self.forest.hanging()[0],
                self.store.wf(),
                self.table_ok(),
                start == chains::entries_hash(es) as int % self.table@.len() as int,
            ensures
                (hash_id as int, 0u32) == sketch::seek(self.table@, self.store.graph(), es, start, 0),
                hash_id < len,
            decreases len - n,
        {
            let unit_id: u32 = self.table[hash_id];
            if unit_id == 0 {
                break;
            }
            proof {
                assert(self.store.chain_ok(unit_id, self.store.len()));
                sketch::lemma_entries_from(self.store, unit_id, 0);
            }
            if self.are_equal(node_id, unit_id, Ghost(open)) {
                return (hash_id, unit_id);
            }
            hash_id = if hash_id + 1 == len {
                0
            } else {
                hash_id + 1
            };
            proof {
                n = n + 1;
            }
            assert(sketch::seek(self.table@, self.store.graph(), es, start, n) == sketch::seek(self.table@, self.store.graph(), es, start, 0));
            if hash_id == start_hash_id {
                assert(n == len);
                break;
            }
        }
        (hash_id, 0)
    }
}

/// The edges that a node which takes no more children stands for.
pub open spec fn weigh(f: NodeForest, s: UnitStore, n: u32) -> nat {
    if f.node(n).label == 0 {
        1
    } else {
        1 + s.chains@[f.node(n).child].weight
    }
}

/// The edges that a list of such nodes stands for.
pub open spec fn mass(f: NodeForest, s: UnitStore, l: Seq<u32>) -> nat
    decreases l.len(),
{
    if l.len() == 0 {
        0
    } else {
        weigh(f, s, l[0]) + mass(f, s, l.drop_first())
    }
}

/// The chain `u` holds the children of the last node, from the smallest label to the
/// largest.
pub open spec fn mirrors(f: NodeForest, s: UnitStore, u: u32) -> bool {
    let l = f.hanging();
    &&& s.chains@.contains_key(u)
    &&& s.chains@[u].len == l.len()
    &&& forall|j: int|
        #![trigger l[j]]
        0 <= j < l.len() ==> s.lab(u, l.len() - 1 - j) == f.node(l[j]).label && s.word(u, l.len() - 1 - j)
            == nodes::node_unit(f.node(l[j]))
}

/// A node takes no more children: it ends a key, or names a chain.
pub open spec fn node_done(f: NodeForest, s: UnitStore, n: u32) -> bool {
    if f.node(n).label == 0 {
        f.node(n).child < 0x8000_0000
    } else {
        s.chains@.contains_key(f.node(n).child)
    }
}

proof fn lemma_mass(f: NodeForest, s: UnitStore, t: UnitStore, u: u32, m: nat, j: int)
    requires
        m == f.hanging().len(),
        0 <= j <= m,
        forall|i: int|
            #![trigger f.hanging()[i]]
            0 <= i < m ==> weigh(f, s, f.hanging()[i]) == t.load(u, m - 1 - i),
    ensures
        mass(f, s, f.hanging().skip(j)) == t.loads(u, (m - j) as nat),
    decreases m - j,
{
    let l = f.hanging();
    if j < m {
        lemma_mass(f, s, t, u, m, j + 1);
        assert(l.skip(j).drop_first() =~= l.skip(j + 1));
        assert(l.skip(j)[0] == l[j]);
        assert(weigh(f, s, l[j]) == t.load(u, m - 1 - j));
    }
}

impl DawgBuilder {
    /// Writes the children of the last node as a new chain.
    fn store_chain(&mut self, node_id: u32, Ghost(open): Ghost<int>) -> (res: u32)
        requires
            old(self).forest.shape(open),
            open != old(self).forest.depth(),
            old(self).forest.hanging().len() > 0,
            node_id == old(self).forest.hanging()[0],
            old(self).store.wf(),
            forall|j: int|
                #![trigger old(self).forest.hanging()[j]]
                0 <= j < old(self).forest.hanging().len() ==> node_done(
                    old(self).forest,
                    old(self).store,
                    old(self).forest.hanging()[j],
                ),
            old(self).store.len() + old(self).forest.hanging().len() <= 0x4000_0000,
        ensures
            *final(self) == (DawgBuilder { store: final(self).store, ..*old(self) }),
            final(self).store.wf(),
            final(self).store.keeps(&old(self).store),
            final(self).store.len() == old(self).store.len() + old(self).forest.hanging().len(),
            res == old(self).store.len(),
            only_added(final(self).store, old(self).store),
            final(self).store.graph() == sketch::appended(old(self).store.graph(), old(self).forest.entries()),
            mirrors(final(self).forest, final(self).store, res),
            final(self).store.chains@[res].weight == mass(
                old(self).forest,
                old(self).store,
                old(self).forest.hanging(),
            ),
    {
        let ghost f: NodeForest = self.forest;
        let ghost s: UnitStore = self.store;
        let ghost l: Seq<u32> = f.hanging();
        let ghost d: int = f.depth();
        let ghost m: int = l.len() as int;
        let ghost base: int = self.store.len();
        let mut unit_id: u32 = 0;
        let mut sibling_id: u32 = node_id;
        let mut num_siblings: u32 = 0;
        assert(f.listed(d, 0));
        assert(f.item_ok(d, 0, open));
        assert(s.is_intersections@ =~= s.is_intersections@ + Seq::new(0, |i: int| false));
        while sibling_id != 0
            invariant
                *self == (DawgBuilder { store: self.store, ..*old(self) }),
                f == self.forest,
                s == old(self).store,
                s.wf(),
                f.shape(open),
                l == f.hanging(),
                d == f.depth(),
                m == l.len(),
                base == s.len(),
                base + m <= 0x4000_0000,
                num_siblings <= m,
                self.store.labels@.len() == self.store.len(),
                self.store.is_intersections@.len() == self.store.len(),
                self.store.is_intersections.wf(),
                self.store.is_intersections@ == s.is_intersections@ + Seq::new(
                    num_siblings as nat,
                    |i: int| false,
                ),
                self.store.chains == s.chains,
                self.store.len() == base + num_siblings,
                num_siblings > 0 ==> unit_id == base + num_siblings - 1,
                forall|i: int| #![trigger self.store.units@[i]] 0 <= i < base ==> self.store.units@[i] == s.units@[i],
                forall|i: int| #![trigger self.store.labels@[i]] 0 <= i < base ==> self.store.labels@[i] == s.labels@[i],
                sibling_id == (if num_siblings < m {
                    l[num_siblings as int]
                } else {
                    0
                }),
            decreases m - num_siblings,
        {
            assert(f.listed(d, num_siblings as int));
            assert(f.item_ok(d, num_siblings as int, open));
            unit_id = self.store.append_unit();
            assert(self.store.is_intersections@ =~= s.is_intersections@ + Seq::new(
                (num_siblings + 1) as nat,
                |i: int| false,
            ));
            sibling_id = self.forest.nodes[sibling_id as usize].sibling;
            num_siblings += 1;
        }
        proof {
            if num_siblings < m {
                assert(f.listed(d, num_siblings as int));
                assert(f.item_ok(d, num_siblings as int, open));
            }
        }
        assert(num_siblings == m);
        let first_unit_id: u32 = unit_id - num_siblings + 1;
        sibling_id = node_id;
        let mut current_unit_id: u32 = unit_id;
        let ghost mut n: int = 0;
        while sibling_id != 0
            invariant
                *self == (DawgBuilder { store: self.store, ..*old(self) }),
                f == self.forest,
                s == old(self).store,
                s.wf(),
                f.shape(open),
                l == f.hanging(),
                d == f.depth(),
                m == l.len(),
                m > 0,
                base == s.len(),
                base + m <= 0x4000_0000,
                first_unit_id == base,
                self.store.is_intersections@ == s.is_intersections@ + Seq::new(m as nat, |i: int| false),
                0 <= n <= m,
                self.store.labels@.len() == self.store.len(),
                self.store.is_intersections@.len() == self.store.len(),
                self.store.is_intersections.wf(),
                self.store.chains == s.chains,
                self.store.len() == base + m,
                forall|i: int| #![trigger self.store.units@[i]] 0 <= i < base ==> self.store.units@[i] == s.units@[i],
                forall|i: int| #![trigger self.store.labels@[i]] 0 <= i < base ==> self.store.labels@[i] == s.labels@[i],
                forall|j: int|
                    #![trigger l[j]]
                    0 <= j < n ==> self.store.labels@[base + m - 1 - j] == f.node(l[j]).label
                        && self.store.units@[base + m - 1 - j].0 == nodes::node_unit(f.node(l[j])),
                sibling_id == (if n < m {
                    l[n]
                } else {
                    0
                }),
                n < m ==> current_unit_id == base + m - 1 - n,
            decreases m - n,
        {
            assert(f.listed(d, n));
            assert(f.item_ok(d, n, open));
            let node: DawgNode = self.forest.nodes[sibling_id as usize];
            self.store.units.set(current_unit_id as usize, DawgUnit(node.unit()));
            self.store.labels.set(current_unit_id as usize, node.label);
            sibling_id = node.sibling;
            if sibling_id != 0 {
                current_unit_id -= 1;
            }
            proof {
                if n + 1 < m {
                    assert(f.listed(d, n + 1));
                    assert(f.item_ok(d, n + 1, open));
                }
                n = n + 1;
            }
        }
        proof {
            if n < m {
                assert(f.listed(d, n));
                assert(f.item_ok(d, n, open));
            }
            let a = self.store;
            lemma_written(f, s, a, open);
            let weight = a.loads(first_unit_id, m as nat);
            self.store.chains@ = self.store.chains@.insert(
                first_unit_id,
                Chain { len: m as nat, weight: weight, den: chains::chain_dict(a, first_unit_id, m as nat) },
            );
            chains::lemma_new_chain(a, self.store, first_unit_id, m as nat);
            let es = f.entries();
            let want = sketch::appended(s.graph(), es);
            let got = self.store.graph();
            assert forall|i: int| 0 <= i < base + m implies got.units[i] == #[trigger] want.units[i] && got.labels[i]
                == want.labels[i] by {
                if i >= base {
                    let j = base + m - 1 - i;
                    assert(self.store.labels@[base + m - 1 - j] == f.node(l[j]).label);
                    assert(want.units[i] == es[j].1);
                    assert(want.labels[i] == es[j].0);
                } else {
                    assert(self.store.units@[i] == s.units@[i]);
                }
            }
            assert(got =~= want);
        }
        first_unit_id
    }
}

/// Units that mirror a list can become a chain.
proof fn lemma_written(f: NodeForest, s: UnitStore, a: UnitStore, open: int)
    requires
        f.shape(open),
        open != f.depth(),
        f.hanging().len() > 0,
        s.wf(),
        forall|j: int|
            #![trigger f.hanging()[j]]
            0 <= j < f.hanging().len() ==> node_done(f, s, f.hanging()[j]),
        a.len() == s.len() + f.hanging().len(),
        a.len() <= 0x4000_0000,
        a.labels@.len() == a.len(),
        a.is_intersections@.len() == a.len(),
        a.is_intersections.wf(),
        a.chains == s.chains,
        forall|i: int| #![trigger a.units@[i]] 0 <= i < s.len() ==> a.units@[i] == s.units@[i],
        forall|i: int| #![trigger a.labels@[i]] 0 <= i < s.len() ==> a.labels@[i] == s.labels@[i],
        forall|j: int|
            #![trigger f.hanging()[j]]
            0 <= j < f.hanging().len() ==> a.labels@[a.len() - 1 - j] == f.node(f.hanging()[j]).label
                && a.units@[a.len() - 1 - j].0 == nodes::node_unit(f.node(f.hanging()[j])),
    ensures
        a.wf_below(s.len()),
        forall|i: int, j: int|
            #![trigger a.lab(s.len() as u32, i), a.lab(s.len() as u32, j)]
            0 <= i < j < f.hanging().len() ==> a.lab(s.len() as u32, i) < a.lab(s.len() as u32, j),
        forall|i: int|
            #![trigger a.word(s.len() as u32, i)]
            0 <= i < f.hanging().len() ==> {
                let w = a.word(s.len() as u32, i);
                &&& chains::unit_sibling(w) == (i + 1 < f.hanging().len())
                &&& a.lab(s.len() as u32, i) != 0 ==> a.chains@.contains_key(chains::unit_child(w))
                &&& i > 0 ==> !chains::unit_state(w)
            },
        mass(f, s, f.hanging()) == a.loads(s.len() as u32, f.hanging().len()),
{
    let l = f.hanging();
    let d = f.depth();
    let m = l.len() as int;
    let first = s.len() as u32;
    assert forall|u: u32| #[trigger] a.chains@.contains_key(u) implies a.chain_ok(u, s.len()) by {
        assert(s.chains@.contains_key(u));
        chains::lemma_chain_frame(s, a, u, s.len(), s.len());
    }
    assert forall|u: u32|
        #![trigger a.chains@.contains_key(u)]
        1 <= u < s.len() && (a.labels@[u as int] == 0 || chains::unit_state(a.units@[u as int].0)) implies a.chains@.contains_key(u) by {
        assert(s.chains@.contains_key(u));
    }
    assert forall|i: int, j: int| #![trigger a.lab(first, i), a.lab(first, j)] 0 <= i < j < m implies a.lab(first, i)
        < a.lab(first, j) by {
        let p = m - 1 - i;
        let q = m - 1 - j;
        assert(f.listed(d, p) && f.listed(d, q));
        assert(f.label_at(d, q) > f.label_at(d, p));
        assert(a.labels@[a.len() - 1 - p] == f.node(l[p]).label);
        assert(a.labels@[a.len() - 1 - q] == f.node(l[q]).label);
    }
    assert forall|j: int| #![trigger l[j]] 0 <= j < m implies {
        let w = a.word(first, m - 1 - j);
        &&& chains::unit_sibling(w) == (j > 0)
        &&& a.lab(first, m - 1 - j) == f.node(l[j]).label
        &&& f.node(l[j]).label != 0 ==> chains::unit_child(w) == f.node(l[j]).child && s.chains@.contains_key(
            f.node(l[j]).child,
        ) && chains::unit_state(w) == (j + 1 == m)
        &&& weigh(f, s, l[j]) == a.load(first, m - 1 - j)
    } by {
        assert(f.listed(d, j));
        assert(f.item_ok(d, j, open));
        let n = f.node(l[j]);
        nodes::lemma_node_unit(n);
        if n.label != 0 {
            assert(s.chains@.contains_key(n.child));
            assert(s.chain_ok(n.child, s.len()));
        }
    }
    assert forall|i: int| #![trigger a.word(first, i)] 0 <= i < m implies {
        let w = a.word(first, i);
        &&& chains::unit_sibling(w) == (i + 1 < m)
        &&& a.lab(first, i) != 0 ==> a.chains@.contains_key(chains::unit_child(w))
        &&& i > 0 ==> !chains::unit_state(w)
    } by {
        let j = m - 1 - i;
        let n = l[j];
        if i > 0 {
            assert(a.lab(first, 0) < a.lab(first, i));
        }
    }
    lemma_mass(f, s, a, first, m as nat, 0);
    assert(l.skip(0) =~= l);
}

/// The sum of some numbers.
pub open spec fn sum(s: Seq<nat>) -> nat
    decreases s.len(),
{
    if s.len() == 0 {
        0
    } else {
        sum(s.drop_last()) + s.last()
    }
}

impl DawgBuilder {
    /// The first `i` labels of the path.
    pub open spec fn prefix(&self, i: int) -> Seq<u8> {
        self.forest.path@.take(i)
    }

    /// The `j`th child at depth `i` takes no more children: it is not on the path.
    pub open spec fn frozen(&self, i: int, j: int) -> bool {
        self.forest.listed(i, j) && (j > 0 || i == self.forest.depth())
    }

    /// The edges below the node of depth `i` on the path. The last node of the path may be
    /// settled: it ends a key, or names a chain.
    pub open spec fn level(&self, i: int, settled: bool) -> nat {
        if i < self.forest.depth() {
            1 + mass(self.forest, self.store, self.forest.lists@[i].drop_first())
        } else if settled {
            (weigh(self.forest, self.store, self.forest.tip()) - 1) as nat
        } else {
            mass(self.forest, self.store, self.forest.hanging())
        }
    }

    /// The numbers of nodes, units and edges.
    pub open spec fn counts_ok(&self, settled: bool) -> bool {
        &&& 1 <= self.num_states <= self.store.len()
        &&& self.store.len() + nodes::total(self.forest.lists@) <= 0x4000_0000
        &&& self.loads@.len() == self.forest.lists@.len()
        &&& forall|i: int|
            0 <= i < self.loads@.len() ==> #[trigger] self.loads@[i] == self.level(i, settled)
        &&& sum(self.loads@) <= self.made@
    }

    /// Whether a child at depth `i` has the label `c`.
    pub open spec fn in_list(&self, i: int, c: u8) -> bool {
        exists|j: int| self.forest.listed(i, j) && #[trigger] self.forest.label_at(i, j) == c
    }

    /// The node `n`, which hangs at depth `i`, stands for the keys that go on with its label.
    pub open spec fn node_rep(&self, i: int, n: u32) -> bool {
        let node = self.forest.node(n);
        if node.label == 0 {
            (self.dict@)(self.prefix(i)) == Some(node.child as i32)
        } else {
            forall|k: Seq<u8>|
                #[trigger] (self.dict@)(self.prefix(i).push(node.label) + k) == (
                self.store.chains@[node.child].den)(k)
        }
    }

    /// No key goes on at depth `i` with a label that no child has.
    pub open spec fn absent(&self, i: int) -> bool {
        &&& !self.in_list(i, 0) ==> (self.dict@)(self.prefix(i)) is None
        &&& forall|c: u8, k: Seq<u8>|
            c != 0 && !self.in_list(i, c) ==> (#[trigger] (self.dict@)(self.prefix(i).push(c) + k)) is None
    }

    /// The settled last node of the path stands for the keys that pass through it.
    pub open spec fn tip_rep(&self) -> bool {
        let node = self.forest.node(self.forest.tip());
        if node.label == 0 {
            self.forest.depth() - 1 <= self.zero() ==> (self.dict@)(self.prefix(self.forest.depth() - 1)) == Some(
                node.child as i32,
            )
        } else {
            self.forest.depth() <= self.zero() ==> forall|k: Seq<u8>|
                #[trigger] (self.dict@)(self.prefix(self.forest.depth()) + k) == (
                self.store.chains@[node.child].den)(k)
        }
    }

    /// The position of the first zero on the path. What is below does not count.
    pub open spec fn zero(&self) -> int {
        words::first_zero(self.forest.path@) as int
    }

    /// Nodes and chains together stand for the keys.
    pub open spec fn rep(&self, settled: bool) -> bool {
        &&& forall|i: int, j: int|
            #![trigger self.forest.item(i, j)]
            self.frozen(i, j) && i <= self.zero() ==> self.node_rep(i, self.forest.item(i, j))
        &&& forall|i: int|
            0 <= i <= self.forest.depth() && i <= self.zero() && !(settled && i == self.forest.depth())
                ==> #[trigger] self.absent(i)
        &&& settled ==> self.tip_rep()
        &&& forall|k: Seq<u8>| k.contains(0) ==> (#[trigger] (self.dict@)(k)) is None
        &&& forall|k: Seq<u8>| #[trigger] self.cuts@.contains(k) ==> (self.dict@)(k) is Some
        &&& (settled && self.zero() < self.forest.path@.len() - 1) || (self.forest.hanging().len() > 0
            && self.zero() < self.forest.path@.len()) ==> self.cuts@.contains(self.prefix(self.zero()))
    }

    /// Everything fits together. `open` and `settled` say what the end of the path is like.
    pub open spec fn wf(&self, open: int, settled: bool) -> bool {
        &&& self.forest.shape(open)
        &&& self.store.wf()
        &&& self.table_ok()
        &&& self.counts_ok(settled)
        &&& forall|i: int, j: int|
            #![trigger self.forest.item(i, j)]
            self.frozen(i, j) ==> node_done(self.forest, self.store, self.forest.item(i, j))
        &&& settled ==> self.forest.hanging().len() == 0 && node_done(
            self.forest,
            self.store,
            self.forest.tip(),
        )
        &&& !settled && self.forest.hanging().len() == 0 ==> self.forest.node(self.forest.tip()).child == 0
        &&& self.rep(settled)
    }
}

/// What some nodes are labelled, and what they name or hold.
pub open spec fn stubs(f: NodeForest, l: Seq<u32>) -> Seq<(u8, u32)> {
    Seq::new(l.len(), |j: int| (f.node(l[j]).label, f.node(l[j]).child))
}

impl DawgBuilder {
    /// The children at depth `i` that take no more children.
    pub open spec fn done(&self, i: int) -> Seq<u32> {
        if i < self.forest.depth() {
            self.forest.lists@[i].drop_first()
        } else {
            self.forest.lists@[i]
        }
    }

    /// What the builder holds. The last node of the path may be settled.
    pub open spec fn sketch(&self, settled: bool) -> Sketch {
        Sketch {
            graph: self.store.graph(),
            table: self.table@,
            states: self.num_states as nat,
            pending: Seq::new(self.forest.lists@.len(), |i: int| stubs(self.forest, self.done(i))),
            path: self.forest.path@,
            tip: if settled {
                self.forest.node(self.forest.tip()).child
            } else {
                0
            },
        }
    }
}

/// Nodes that stay as they are have the same stubs.
proof fn lemma_stubs(a: NodeForest, b: NodeForest, l: Seq<u32>)
    requires
        forall|j: int|
            #![trigger l[j]]
            0 <= j < l.len() ==> a.node(l[j]).label == b.node(l[j]).label && a.node(l[j]).child == b.node(l[j]).child,
    ensures
        stubs(a, l) == stubs(b, l),
{
    assert(stubs(a, l) =~= stubs(b, l));
}

/// The done children off the last node are neither on the path nor free.
proof fn lemma_done_apart(a: DawgBuilder, open: int, i: int, j: int)
    requires
        a.forest.shape(open),
        0 <= i < a.forest.lists@.len(),
        0 <= j < a.done(i).len(),
    ensures
        a.done(i)[j] < a.forest.nodes@.len(),
        a.done(i)[j] != a.forest.tip(),
        a.forest.place@[a.done(i)[j] as int] is At,
        forall|t: int| 0 <= t < a.forest.node_stack@.len() ==> a.done(i)[j] != #[trigger] a.forest.node_stack@[t],
{
    let d = a.forest.depth();
    let x = if i < d {
        j + 1
    } else {
        j
    };
    if i < d {
        assert(a.forest.link_ok(i));
    }
    assert(a.done(i)[j] == a.forest.item(i, x));
    assert(a.forest.listed(i, x));
    assert(a.forest.item_ok(i, x, open));
    assert forall|t: int| 0 <= t < a.forest.node_stack@.len() implies a.done(i)[j]
        != #[trigger] a.forest.node_stack@[t] by {
        if t > 0 {
            assert(a.forest.link_ok(t - 1));
            assert(a.forest.listed(t - 1, 0));
            assert(a.forest.item_ok(t - 1, 0, open));
        }
    }
    assert(a.forest.node_stack@[d] == a.forest.tip());
}

/// The children in all lists, those on the path and those that are done.
proof fn lemma_total(a: DawgBuilder, n: int)
    requires
        0 <= n <= a.forest.lists@.len(),
        a.forest.lists@.len() == a.forest.depth() + 1,
        a.forest.depth() >= 0,
        forall|i: int| 0 <= i < a.forest.depth() ==> (#[trigger] a.forest.lists@[i]).len() > 0,
    ensures
        nodes::total(a.forest.lists@.take(n)) == sketch::count(a.sketch(false).pending.take(n)) + (if n
            <= a.forest.depth() {
            n
        } else {
            a.forest.depth()
        }),
    decreases n,
{
    let lists = a.forest.lists@;
    let pending = a.sketch(false).pending;
    if n > 0 {
        lemma_total(a, n - 1);
        assert(lists.take(n).drop_last() =~= lists.take(n - 1));
        assert(pending.take(n).drop_last() =~= pending.take(n - 1));
        assert(lists.take(n).last() == lists[n - 1]);
        assert(pending.take(n).last() == pending[n - 1]);
        assert(pending[n - 1].len() == a.done(n - 1).len());
    }
}

/// The size of what the builder holds.
proof fn lemma_size(a: DawgBuilder, settled: bool)
    requires
        exists|open: int| #[trigger] a.forest.shape(open),
    ensures
        a.sketch(settled).size() == a.store.len() + nodes::total(a.forest.lists@),
{
    let lists = a.forest.lists@;
    assert forall|i: int| 0 <= i < a.forest.depth() implies (#[trigger] lists[i]).len() > 0 by {
        assert(a.forest.link_ok(i));
    }
    lemma_total(a, lists.len() as int);
    assert(lists.take(lists.len() as int) =~= lists);
    assert(a.sketch(false).pending.take(lists.len() as int) =~= a.sketch(settled).pending);
}

/// Taking the last node off the path.
proof fn lemma_retired_sketch(a: DawgBuilder, b: DawgBuilder, open: int)
    requires
        a.forest.shape(open),
        a.forest.depth() > 0,
        b.forest.nodes == a.forest.nodes,
        b.forest.node_stack@ == a.forest.node_stack@.drop_last(),
        b.forest.lists@ == a.forest.lists@.drop_last(),
        b.forest.path@ == a.forest.path@.drop_last(),
        b.store == a.store,
        b.table == a.table,
        b.num_states == a.num_states,
    ensures
        b.sketch(false) == a.sketch(true).retire(),
{
    let d = b.forest.depth();
    let want = a.sketch(true).retire();
    let got = b.sketch(false);
    assert(a.forest.link_ok(d));
    assert(got.pending.len() == want.pending.len());
    assert forall|i: int| 0 <= i < got.pending.len() implies got.pending[i] == #[trigger] want.pending[i] by {
        assert(b.forest.lists@[i] == a.forest.lists@[i]);
        if i < d {
            assert(b.done(i) == a.done(i));
            lemma_stubs(a.forest, b.forest, a.done(i));
        } else {
            let l = a.forest.lists@[d];
            assert(b.done(d) == l);
            assert(a.done(d) == l.drop_first());
            assert(got.pending[d] =~= seq![(a.forest.path@[d], a.forest.node(a.forest.tip()).child)] + stubs(
                a.forest,
                a.done(d),
            ));
        }
    }
    assert(got.pending =~= want.pending);
}

/// The entries of the list that hangs off the last node.
proof fn lemma_entries_sketch(a: DawgBuilder, open: int)
    requires
        a.forest.shape(open),
        open != a.forest.depth(),
    ensures
        a.forest.entries() == sketch::entries_of(a.sketch(false).pending.last()),
{
    let d = a.forest.depth();
    let es = a.forest.entries();
    let list = a.sketch(false).pending.last();
    let want = sketch::entries_of(list);
    assert(list == stubs(a.forest, a.forest.hanging()));
    assert forall|j: int| 0 <= j < es.len() implies es[j] == #[trigger] want[j] by {
        assert(a.forest.listed(d, j));
        assert(a.forest.item_ok(d, j, open));
    }
    assert(es =~= want);
}

/// The children of the last node were replaced by a chain: what hangs elsewhere stays.
proof fn lemma_settled_pending(a: DawgBuilder, b: DawgBuilder, open: int, u: u32)
    requires
        a.forest.shape(open),
        b.forest.node_stack == a.forest.node_stack,
        b.forest.path == a.forest.path,
        b.forest.lists@ == a.forest.lists@.update(a.forest.depth(), Seq::empty()),
        b.forest.nodes@ == a.forest.nodes@.update(
            a.forest.tip() as int,
            DawgNode { child: u, ..a.forest.node(a.forest.tip()) },
        ),
        a.forest.tip() < a.forest.nodes@.len(),
    ensures
        b.sketch(true).pending == a.sketch(false).pending.update(a.forest.depth(), Seq::empty()),
        b.sketch(true).tip == u,
{
    let d = a.forest.depth();
    let got = b.sketch(true).pending;
    let want = a.sketch(false).pending.update(d, Seq::empty());
    assert forall|i: int| 0 <= i < got.len() implies got[i] == #[trigger] want[i] by {
        if i < d {
            assert(b.done(i) == a.done(i));
            let l = a.done(i);
            assert forall|j: int| #![trigger l[j]] 0 <= j < l.len() implies a.forest.node(l[j]).label == b.forest.node(
                l[j],
            ).label && a.forest.node(l[j]).child == b.forest.node(l[j]).child by {
                lemma_done_apart(a, open, i, j);
            }
            lemma_stubs(a.forest, b.forest, l);
        } else {
            assert(got[i] =~= Seq::empty());
        }
    }
    assert(got =~= want);
}

/// A new node at the end of the path.
proof fn lemma_extended_sketch(a: DawgBuilder, b: DawgBuilder, open: int, res: u32, label: u8)
    requires
        a.forest.shape(open),
        res >= a.forest.nodes@.len() || a.forest.place@[res as int] is Free,
        b.forest.node_stack@ == a.forest.node_stack@.push(res),
        b.forest.path@ == a.forest.path@.push(label),
        b.forest.lists@ == a.forest.lists@.update(
            a.forest.depth(),
            seq![res] + a.forest.hanging(),
        ).push(Seq::empty()),
        forall|n: u32|
            #![trigger b.forest.node(n)]
            n < a.forest.nodes@.len() && n != res && n != a.forest.tip() ==> b.forest.node(n) == a.forest.node(n),
        b.store == a.store,
        b.table == a.table,
        b.num_states == a.num_states,
    ensures
        b.sketch(false).pending == a.sketch(false).pending.push(Seq::empty()),
        b.sketch(false).path == a.sketch(false).path.push(label),
        b.sketch(false) == (Sketch {
            pending: b.sketch(false).pending,
            path: b.sketch(false).path,
            ..a.sketch(false)
        }),
{
    let d = a.forest.depth();
    let got = b.sketch(false).pending;
    let want = a.sketch(false).pending.push(Seq::empty());
    assert forall|i: int| 0 <= i < got.len() implies got[i] == #[trigger] want[i] by {
        if i <= d {
            if i < d {
                assert(b.forest.lists@[i] == a.forest.lists@[i]);
            }
            assert(b.done(i) =~= a.done(i));
            let l = a.done(i);
            assert forall|j: int| #![trigger l[j]] 0 <= j < l.len() implies a.forest.node(l[j]).label == b.forest.node(
                l[j],
            ).label && a.forest.node(l[j]).child == b.forest.node(l[j]).child by {
                lemma_done_apart(a, open, i, j);
            }
            lemma_stubs(a.forest, b.forest, l);
        } else {
            assert(b.forest.lists@[i].len() == 0);
            assert(got[i] =~= Seq::empty());
        }
    }
    assert(got =~= want);
}

/// Nodes of the path were changed, and nothing else.
proof fn lemma_path_sketch(a: DawgBuilder, b: DawgBuilder, open: int, t: int)
    requires
        a.forest.shape(open),
        0 <= t < a.forest.node_stack@.len(),
        b.forest == (NodeForest { nodes: b.forest.nodes, ..a.forest }),
        forall|n: u32|
            #![trigger b.forest.node(n)]
            n < a.forest.nodes@.len() && n != a.forest.node_stack@[t] ==> b.forest.node(n) == a.forest.node(n),
    ensures
        b.sketch(false).pending == a.sketch(false).pending,
{
    let got = b.sketch(false).pending;
    let want = a.sketch(false).pending;
    assert forall|i: int| 0 <= i < got.len() implies got[i] == #[trigger] want[i] by {
        assert(b.done(i) == a.done(i));
        let l = a.done(i);
        assert forall|j: int| #![trigger l[j]] 0 <= j < l.len() implies a.forest.node(l[j]).label == b.forest.node(
            l[j],
        ).label && a.forest.node(l[j]).child == b.forest.node(l[j]).child by {
            lemma_done_apart(a, open, i, j);
        }
        lemma_stubs(a.forest, b.forest, l);
    }
    assert(got =~= want);
}

/// The units and labels that were there stay as they are.
pub open spec fn only_added(new: UnitStore, old: UnitStore) -> bool {
    &&& old.len() <= new.len()
    &&& new.labels@.len() == new.len()
    &&& forall|i: int| #![trigger new.units@[i]] 0 <= i < old.len() ==> new.units@[i] == old.units@[i]
    &&& forall|i: int| #![trigger new.labels@[i]] 0 <= i < old.len() ==> new.labels@[i] == old.labels@[i]
}

/// A list weighs the same where its nodes do.
proof fn lemma_mass_frame(f: NodeForest, s: UnitStore, g: NodeForest, t: UnitStore, l: Seq<u32>)
    requires
        forall|j: int| #![trigger l[j]] 0 <= j < l.len() ==> weigh(f, s, l[j]) == weigh(g, t, l[j]),
    ensures
        mass(f, s, l) == mass(g, t, l),
    decreases l.len(),
{
    if l.len() > 0 {
        let r = l.drop_first();
        assert forall|j: int| #![trigger r[j]] 0 <= j < r.len() implies weigh(f, s, r[j]) == weigh(g, t, r[j]) by {
            assert(r[j] == l[j + 1]);
        }
        lemma_mass_frame(f, s, g, t, r);
    }
}

proof fn lemma_sum_top(s: Seq<nat>, x: nat)
    requires
        s.len() > 0,
    ensures
        sum(s.update(s.len() - 1, x)) == sum(s) - s.last() + x,
{
    assert(s.update(s.len() - 1, x).drop_last() =~= s.drop_last());
}

proof fn lemma_sum_push(s: Seq<nat>, x: nat)
    ensures
        sum(s.push(x)) == sum(s) + x,
{
    assert(s.push(x).drop_last() =~= s);
}

/// A settled last node can leave the path.
proof fn lemma_retired(a: DawgBuilder, b: DawgBuilder, open: int)
    requires
        a.wf(open, true),
        a.forest.depth() > 0,
        b.forest.shape(open),
        b.forest.nodes == a.forest.nodes,
        b.forest.node_stack@ == a.forest.node_stack@.drop_last(),
        b.forest.lists@ == a.forest.lists@.drop_last(),
        b.forest.path@ == a.forest.path@.drop_last(),
        b.loads@ == a.loads@.drop_last().update(
            a.forest.depth() - 1,
            a.loads@[a.forest.depth() - 1] + a.loads@[a.forest.depth()],
        ),
        b.store == a.store,
        b.table == a.table,
        b.num_states == a.num_states,
        b.made == a.made,
        b.dict == a.dict,
        b.cuts == a.cuts,
    ensures
        b.wf(open, false),
        b.forest.hanging().len() > 0,
        b.forest.hanging()[0] == a.forest.tip(),
{
    let d = b.forest.depth();
    let l = b.forest.hanging();
    assert(a.forest.link_ok(d));
    assert(l == a.forest.lists@[d]);
    assert(l[0] == a.forest.tip());
    assert(nodes::total(a.forest.lists@) == nodes::total(b.forest.lists@) + a.forest.hanging().len());
    // the edges
    assert(a.loads@.drop_last().drop_last() =~= b.loads@.drop_last());
    assert(sum(a.loads@) == sum(a.loads@.drop_last()) + a.loads@[d + 1]);
    lemma_sum_top(a.loads@.drop_last(), a.loads@[d] + a.loads@[d + 1]);
    assert(sum(b.loads@) == sum(a.loads@));
    assert forall|i: int| 0 <= i < b.loads@.len() implies #[trigger] b.loads@[i] == b.level(i, false) by {
        assert(a.loads@[i] == a.level(i, true));
        assert(b.forest.lists@[i] == a.forest.lists@[i]);
        if i < d {
            let r = a.forest.lists@[i].drop_first();
            lemma_mass_frame(a.forest, a.store, b.forest, b.store, r);
        } else {
            assert(a.loads@[d + 1] == a.level(d + 1, true));
            lemma_mass_frame(a.forest, a.store, b.forest, b.store, l.drop_first());
        }
    }
    assert forall|i: int, j: int| #![trigger b.forest.item(i, j)] b.frozen(i, j) implies node_done(
        b.forest,
        b.store,
        b.forest.item(i, j),
    ) && b.forest.item(i, j) == a.forest.item(i, j) && a.forest.listed(i, j) && (a.frozen(i, j) || (i == d && j
        == 0)) by {
        assert(b.forest.item(i, j) == a.forest.item(i, j));
        if !(i == d && j == 0) {
            assert(a.frozen(i, j));
        }
    }
    assert(b.forest.path@ =~= a.forest.path@.take(d));
    words::lemma_first_zero(a.forest.path@);
    words::lemma_first_zero_take(a.forest.path@, d);
    assert forall|i: int| 0 <= i <= d implies b.prefix(i) == a.prefix(i) by {
        assert(b.prefix(i) =~= a.prefix(i));
    }
    assert forall|i: int, j: int| #![trigger b.forest.item(i, j)] b.frozen(i, j) && i <= b.zero() implies b.node_rep(
        i,
        b.forest.item(i, j),
    ) by {
        let n = b.forest.item(i, j);
        if a.frozen(i, j) {
            assert(a.node_rep(i, a.forest.item(i, j)));
        } else {
            assert(a.tip_rep());
            assert(a.prefix(d + 1) =~= a.prefix(d).push(a.forest.path@[d]));
        }
    }
    assert forall|i: int| 0 <= i <= d && i <= b.zero() implies #[trigger] b.absent(i) by {
        assert(a.absent(i));
        assert forall|c: u8| a.in_list(i, c) implies #[trigger] b.in_list(i, c) by {
            let j = choose|j: int| a.forest.listed(i, j) && #[trigger] a.forest.label_at(i, j) == c;
            assert(b.forest.listed(i, j));
            assert(b.forest.label_at(i, j) == c);
        }
    }
}

impl DawgBuilder {
    /// Takes the settled last node off the path.
    fn retire(&mut self, Ghost(open): Ghost<int>) -> (res: u32)
        requires
            old(self).wf(open, true),
            old(self).forest.depth() > 0,
        ensures
            final(self).wf(open, false),
            res == old(self).forest.tip(),
            final(self).sketch(false) == old(self).sketch(true).retire(),
            final(self).forest.hanging().len() > 0,
            res == final(self).forest.hanging()[0],
            final(self).forest.nodes == old(self).forest.nodes,
            final(self).forest.node_stack@ == old(self).forest.node_stack@.drop_last(),
            final(self).forest.path@ == old(self).forest.path@.drop_last(),
            final(self).store == old(self).store,
            final(self).made == old(self).made,
            final(self).dict == old(self).dict,
            final(self).cuts == old(self).cuts,
    {
        let node_id: u32 = self.forest.pop_tip();
        proof {
            let d = self.forest.depth();
            self.loads@ = self.loads@.drop_last().update(d, self.loads@[d] + self.loads@[d + 1]);
            lemma_retired(*old(self), *self, open);
            lemma_retired_sketch(*old(self), *self, open);
        }
        node_id
    }
}

/// A chain whose entries equal those of a list, in the same order, has one entry.
proof fn lemma_equal_mirrors(f: NodeForest, s: UnitStore, open: int, u: u32)
    requires
        f.shape(open),
        f.hanging().len() > 0,
        s.wf(),
        s.chains@.contains_key(u),
        s.entries(u) == f.entries(),
        forall|j: int|
            #![trigger f.hanging()[j]]
            0 <= j < f.hanging().len() ==> node_done(f, s, f.hanging()[j]),
    ensures
        mirrors(f, s, u),
        s.chains@[u].weight == mass(f, s, f.hanging()),
{
    let l = f.hanging();
    let d = f.depth();
    let es = f.entries();
    let us = s.entries(u);
    assert(s.chain_ok(u, s.len()));
    assert(us.len() == s.chains@[u].len);
    assert(es.len() == l.len());
    assert(es.len() == us.len());
    assert(es[0] == us[0]);
    if l.len() > 1 {
        assert(es[1] == us[1]);
        assert(f.listed(d, 0) && f.listed(d, 1));
        assert(f.label_at(d, 0) > f.label_at(d, 1));
        assert(s.lab(u, 0) < s.lab(u, 1));
    }
    assert(l.len() == 1);
    assert(f.listed(d, 0));
    assert(f.item_ok(d, 0, open));
    let n = f.node(l[0]);
    nodes::lemma_node_unit(n);
    if n.label != 0 {
        assert(s.chains@.contains_key(n.child));
        assert(s.chain_ok(n.child, s.len()));
    }
    assert(s.loads(u, 1) == s.loads(u, 0) + s.load(u, 0)) by {
        reveal_with_fuel(UnitStore::loads, 2);
    }
    assert(mass(f, s, l.drop_first()) == 0);
}

/// The chain that mirrors a list stands for the keys that pass through its parent.
proof fn lemma_chain_means(a: DawgBuilder, t: UnitStore, open: int, u: u32, key: Seq<u8>)
    requires
        a.wf(open, false),
        a.forest.depth() <= a.zero(),
        a.forest.hanging().len() > 0,
        t.wf(),
        t.keeps(&a.store),
        mirrors(a.forest, t, u),
    ensures
        (a.dict@)(a.prefix(a.forest.depth()) + key) == (t.chains@[u].den)(key),
{
    let f = a.forest;
    let d = f.depth();
    let l = f.hanging();
    let m = l.len() as int;
    let p = a.prefix(d);
    let den = t.chains@[u].den;
    assert(t.chain_ok(u, t.len()));
    assert(a.absent(d));
    assert forall|c: u8| a.in_list(d, c) == t.has_label(u, c) by {
        if a.in_list(d, c) {
            let j = choose|j: int| f.listed(d, j) && #[trigger] f.label_at(d, j) == c;
            assert(l[j] == f.item(d, j));
            assert(t.lab(u, m - 1 - j) == c);
        }
        if t.has_label(u, c) {
            let i = choose|i: int| 0 <= i < t.chains@[u].len && #[trigger] t.lab(u, i) == c;
            let n = l[m - 1 - i];
            assert(f.listed(d, m - 1 - i));
            assert(f.label_at(d, m - 1 - i) == c);
        }
    }
    if key.len() == 0 {
        assert(key =~= Seq::empty());
        assert(p + key =~= p);
        if t.lab(u, 0) == 0 {
            let n = l[m - 1];
            assert(f.item(d, m - 1) == n);
            assert(a.frozen(d, m - 1));
            assert(a.node_rep(d, n));
            assert(node_done(f, a.store, n));
            nodes::lemma_node_unit(f.node(n));
            assert(t.word(u, 0) == nodes::node_unit(f.node(n)));
        } else {
            assert(!t.has_label(u, 0)) by {
                if t.has_label(u, 0) {
                    let i = choose|i: int| 0 <= i < t.chains@[u].len && #[trigger] t.lab(u, i) == 0;
                    if i > 0 {
                        assert(t.lab(u, 0) < t.lab(u, i));
                    }
                }
            }
            assert(!a.in_list(d, 0));
        }
    } else {
        let c = key[0];
        let k = key.drop_first();
        assert(key =~= trie::cons(c, k));
        assert(p + key =~= p.push(c) + k);
        if c == 0 {
            assert((p + key)[p.len() as int] == 0);
            assert((p + key).contains(0));
        } else if a.in_list(d, c) {
            let j = choose|j: int| f.listed(d, j) && #[trigger] f.label_at(d, j) == c;
            let n = l[j];
            assert(f.item(d, j) == n);
            assert(a.frozen(d, j));
            assert(a.node_rep(d, n));
            assert(node_done(f, a.store, n));
            nodes::lemma_node_unit(f.node(n));
            assert(a.store.chain_ok(f.node(n).child, a.store.len()));
            assert(t.entry_ok(u, m - 1 - j));
            assert(t.word(u, m - 1 - j) == nodes::node_unit(f.node(n)));
            assert(den(trie::cons(c, k)) == (a.store.chains@[f.node(n).child].den)(k));
        } else {
            assert(!t.has_label(u, c));
        }
    }
}

/// The children of the last node can be replaced by the chain that mirrors them.
proof fn lemma_settled(a: DawgBuilder, b: DawgBuilder, open: int, u: u32)
    requires
        a.wf(open, false),
        a.forest.hanging().len() > 0,
        b.forest.shape(open),
        b.forest.node_stack == a.forest.node_stack,
        b.forest.path == a.forest.path,
        b.forest.lists@ == a.forest.lists@.update(a.forest.depth(), Seq::empty()),
        b.forest.nodes@ == a.forest.nodes@.update(
            a.forest.tip() as int,
            DawgNode { child: u, ..a.forest.node(a.forest.tip()) },
        ),
        b.store.wf(),
        b.store.keeps(&a.store),
        b.store.len() <= a.store.len() + a.forest.hanging().len(),
        mirrors(a.forest, b.store, u),
        b.store.chains@[u].weight == mass(a.forest, a.store, a.forest.hanging()),
        b.table_ok(),
        1 <= b.num_states <= b.store.len(),
        b.loads@ == a.loads@.update(
            a.forest.depth(),
            (weigh(b.forest, b.store, b.forest.tip()) - 1) as nat,
        ),
        b.made == a.made,
        b.dict@ == settled_dict(a, u),
        b.cuts == a.cuts,
    ensures
        b.wf(open, true),
        alike(b.dict@, a.dict@, a.cuts@),
{
    let d = a.forest.depth();
    let tip = a.forest.tip();
    if d > 0 {
        nodes::lemma_stack_distinct(a.forest, open, 0, d);
    }
    assert(b.store.chain_ok(u, b.store.len()));
    assert(nodes::total(b.forest.lists@) == nodes::total(a.forest.lists@) - a.forest.hanging().len()) by {
        assert(b.forest.lists@.drop_last() =~= a.forest.lists@.drop_last());
    }
    lemma_sum_top(a.loads@, (weigh(b.forest, b.store, b.forest.tip()) - 1) as nat);
    assert(a.loads@[d] == a.level(d, false));
    // nodes off the path stay as they are
    assert forall|i: int, j: int| #![trigger b.forest.item(i, j)] b.frozen(i, j) implies {
        let n = b.forest.item(i, j);
        &&& n == a.forest.item(i, j)
        &&& a.frozen(i, j)
        &&& b.forest.node(n) == a.forest.node(n)
        &&& node_done(b.forest, b.store, n)
        &&& weigh(b.forest, b.store, n) == weigh(a.forest, a.store, n)
    } by {
        let n = b.forest.item(i, j);
        assert(i < d);
        assert(b.forest.lists@[i] == a.forest.lists@[i]);
        assert(a.forest.listed(i, j));
        assert(n == a.forest.item(i, j));
        assert(a.frozen(i, j));
        assert(a.forest.item_ok(i, j, open));
        assert(n != tip) by {
            if d > 0 {
                assert(a.forest.link_ok(d - 1));
                assert(a.forest.listed(d - 1, 0));
                assert(a.forest.item_ok(d - 1, 0, open));
            }
        }
        assert(node_done(a.forest, a.store, n));
    }
    assert forall|i: int| 0 <= i < b.loads@.len() implies #[trigger] b.loads@[i] == b.level(i, true) by {
        if i < d {
            assert(a.loads@[i] == a.level(i, false));
            let r = b.forest.lists@[i].drop_first();
            assert(b.forest.link_ok(i));
            assert(b.forest.lists@[i] == a.forest.lists@[i]);
            assert forall|j: int| #![trigger r[j]] 0 <= j < r.len() implies weigh(a.forest, a.store, r[j]) == weigh(
                b.forest,
                b.store,
                r[j],
            ) by {
                assert(r[j] == b.forest.item(i, j + 1));
                assert(b.frozen(i, j + 1));
            }
            lemma_mass_frame(a.forest, a.store, b.forest, b.store, r);
        }
    }
    lemma_settled_rep(a, b, open, u);
}

/// What the keys mean when the last node names the chain `u`. A node that ends a key and has
/// children takes the number of their chain for its value.
pub open spec fn settled_dict(a: DawgBuilder, u: u32) -> Dict {
    let d = a.forest.depth();
    if d > 0 && a.forest.path@[d - 1] == 0 && a.zero() == d - 1 {
        |k: Seq<u8>|
            if k == a.prefix(d - 1) {
                Some(u as i32)
            } else {
                (a.dict@)(k)
            }
    } else {
        a.dict@
    }
}

/// The same keys have values, and those that were not cut have the same values.
pub open spec fn alike(new: Dict, old: Dict, cuts: Set<Seq<u8>>) -> bool {
    &&& forall|k: Seq<u8>| (#[trigger] new(k)) is Some <==> old(k) is Some
    &&& forall|k: Seq<u8>| !cuts.contains(k) ==> #[trigger] new(k) == old(k)
}

proof fn lemma_settled_rep(a: DawgBuilder, b: DawgBuilder, open: int, u: u32)
    requires
        a.wf(open, false),
        a.forest.hanging().len() > 0,
        b.forest.shape(open),
        b.forest.node_stack == a.forest.node_stack,
        b.forest.path == a.forest.path,
        b.forest.lists@ == a.forest.lists@.update(a.forest.depth(), Seq::empty()),
        b.forest.nodes@ == a.forest.nodes@.update(
            a.forest.tip() as int,
            DawgNode { child: u, ..a.forest.node(a.forest.tip()) },
        ),
        b.store.wf(),
        b.store.keeps(&a.store),
        mirrors(a.forest, b.store, u),
        b.dict@ == settled_dict(a, u),
        b.cuts == a.cuts,
        forall|i: int, j: int|
            #![trigger b.forest.item(i, j)]
            b.frozen(i, j) ==> {
                let n = b.forest.item(i, j);
                &&& n == a.forest.item(i, j)
                &&& a.frozen(i, j)
                &&& i < a.forest.depth()
                &&& b.forest.node(n) == a.forest.node(n)
                &&& node_done(a.forest, a.store, n)
            },
    ensures
        b.rep(true),
        alike(b.dict@, a.dict@, a.cuts@),
{
    let d = a.forest.depth();
    let tip = a.forest.tip();
    let ends = d > 0 && a.forest.path@[d - 1] == 0 && a.zero() == d - 1;
    let key = a.prefix(d - 1);
    words::lemma_first_zero(a.forest.path@);
    if d > 0 {
        nodes::lemma_stack_distinct(a.forest, open, 0, d);
        assert(a.forest.link_ok(d - 1));
    }
    assert forall|i: int| 0 <= i <= d implies b.prefix(i) == a.prefix(i) by {
        assert(b.prefix(i) =~= a.prefix(i));
    }
    if ends {
        assert(a.cuts@.contains(key));
        assert((a.dict@)(key) is Some);
        assert(key.len() == d - 1);
    }
    assert forall|i: int, j: int| #![trigger b.forest.item(i, j)] b.frozen(i, j) && i <= b.zero() implies b.node_rep(
        i,
        b.forest.item(i, j),
    ) by {
        let n = b.forest.item(i, j);
        let c = b.forest.node(n).label;
        assert(a.node_rep(i, a.forest.item(i, j)));
        if ends {
            lemma_off_path(a, open, i, j);
            if c == 0 {
                assert(b.prefix(i) != key);
            } else {
                assert forall|k: Seq<u8>| #[trigger] (b.dict@)(b.prefix(i).push(c) + k) == (
                b.store.chains@[b.forest.node(n).child].den)(k) by {
                    let other = b.prefix(i).push(c) + k;
                    assert(other[i] == c);
                    if i < d - 1 {
                        assert(key[i] == a.forest.path@[i]);
                    }
                    assert(other != key);
                    assert((a.dict@)(a.prefix(i).push(c) + k) == (a.store.chains@[a.forest.node(n).child].den)(k));
                }
            }
        }
    }
    assert forall|i: int| 0 <= i < d && i <= b.zero() implies #[trigger] b.absent(i) by {
        assert(a.absent(i));
        assert(b.forest.lists@[i] == a.forest.lists@[i]);
        assert forall|c: u8| a.in_list(i, c) implies #[trigger] b.in_list(i, c) by {
            let j = choose|j: int| a.forest.listed(i, j) && #[trigger] a.forest.label_at(i, j) == c;
            assert(b.forest.listed(i, j));
            assert(a.forest.item_ok(i, j, open));
            assert(b.forest.label_at(i, j) == c);
        }
        assert(a.forest.link_ok(i));
        assert(a.forest.listed(i, 0));
        assert(a.forest.label_at(i, 0) == a.forest.path@[i]);
        assert(a.in_list(i, a.forest.path@[i]));
        if ends {
            if !b.in_list(i, 0) {
                assert(i < d - 1);
                assert(b.prefix(i).len() < key.len());
            }
            assert forall|c: u8, k: Seq<u8>| c != 0 && !b.in_list(i, c) implies (#[trigger] (b.dict@)(
                b.prefix(i).push(c) + k,
            )) is None by {
                let other = b.prefix(i).push(c) + k;
                assert(other[i] == c);
                if i < d - 1 {
                    assert(key[i] == a.forest.path@[i]);
                } else {
                    assert(other.len() > key.len());
                }
                assert(other != key);
                assert((a.dict@)(a.prefix(i).push(c) + k) is None);
            }
        }
    }
    assert(b.tip_rep()) by {
        assert(b.forest.node(tip).child == u);
        if b.forest.node(tip).label != 0 && d <= b.zero() {
            assert forall|k: Seq<u8>| #[trigger] (b.dict@)(b.prefix(d) + k) == (b.store.chains@[u].den)(k) by {
                lemma_chain_means(a, b.store, open, u, k);
            }
        }
    }
    if ends {
        assert(!key.contains(0)) by {
            if key.contains(0) {
                let x = choose|x: int| 0 <= x < key.len() && key[x] == 0;
                assert(a.forest.path@[x] != 0);
            }
        }
    }
}

/// A node off the path has a smaller label than the path at its depth.
proof fn lemma_off_path(a: DawgBuilder, open: int, i: int, j: int)
    requires
        a.forest.shape(open),
        a.forest.listed(i, j),
        j > 0,
        i < a.forest.depth(),
    ensures
        a.forest.label_at(i, j) < a.forest.path@[i],
{
    assert(a.forest.link_ok(i));
    assert(a.forest.listed(i, 0));
    assert(a.forest.label_at(i, 0) > a.forest.label_at(i, j));
}

/// The marks of the intersections say nothing of the chains.
proof fn lemma_marked(a: UnitStore, b: UnitStore)
    requires
        a.wf(),
        b == (UnitStore { is_intersections: b.is_intersections, ..a }),
        b.is_intersections.wf(),
        b.is_intersections@.len() == a.is_intersections@.len(),
    ensures
        b.wf(),
        b.keeps(&a),
        forall|u: u32| #[trigger] b.entries(u) == a.entries(u),
{
    assert forall|u: u32| #[trigger] b.chains@.contains_key(u) implies b.chain_ok(u, b.len()) by {
        assert(a.chains@.contains_key(u));
        chains::lemma_chain_frame(a, b, u, a.len(), b.len());
    }
    assert forall|u: u32| #[trigger] b.entries(u) == a.entries(u) by {
        assert(b.entries(u) =~= a.entries(u));
    }
    assert forall|u: u32|
        #![trigger b.chains@.contains_key(u)]
        1 <= u < b.len() && (b.labels@[u as int] == 0 || chains::unit_state(b.units@[u as int].0)) implies b.chains@.contains_key(u) by {
        assert(a.chains@.contains_key(u));
    }
}

impl DawgBuilder {
    /// Turns the children of the last node into a chain, or into one that is there.
    fn settle(&mut self, node_id: u32, Ghost(open): Ghost<int>)
        requires
            old(self).wf(open, false),
            open != old(self).forest.depth(),
            old(self).forest.hanging().len() > 0,
            node_id == old(self).forest.hanging()[0],
        ensures
            final(self).wf(open, true),
            final(self).forest.node_stack == old(self).forest.node_stack,
            final(self).forest.path == old(self).forest.path,
            final(self).store.keeps(&old(self).store),
            only_added(final(self).store, old(self).store),
            final(self).sketch(true) == old(self).sketch(false).settle(),
            final(self).made == old(self).made,
            alike(final(self).dict@, old(self).dict@, old(self).cuts@),
            final(self).cuts == old(self).cuts,
    {
        if self.num_states >= self.table.len() - self.table.len() / 4 {
            self.expand_table();
        }
        let ghost a: DawgBuilder = *self;
        proof {
            lemma_table_frame(*old(self), a, open);
            assert forall|j: int|
                #![trigger a.forest.hanging()[j]]
                0 <= j < a.forest.hanging().len() implies node_done(a.forest, a.store, a.forest.hanging()[j]) by {
                assert(a.forest.item(a.forest.depth(), j) == a.forest.hanging()[j]);
                assert(a.frozen(a.forest.depth(), j));
            }
            lemma_list_len(a.forest, open);
            nodes::lemma_total_ge(a.forest.lists@, a.forest.depth());
        }
        let (hash_id, match_id) = self.find_node(node_id, Ghost(open));
        let final_match_id: u32 = if match_id != 0 {
            proof {
                lemma_equal_mirrors(a.forest, a.store, open, match_id);
                assert(a.store.chain_ok(match_id, a.store.len()));
            }
            self.store.is_intersections.set(match_id as usize, true);
            proof {
                lemma_marked(a.store, self.store);
                assert(mirrors(a.forest, self.store, match_id)) by {
                    let l = a.forest.hanging();
                    assert forall|j: int| #![trigger l[j]] 0 <= j < l.len() implies self.store.lab(
                        match_id,
                        l.len() - 1 - j,
                    ) == a.forest.node(l[j]).label && self.store.word(match_id, l.len() - 1 - j)
                        == nodes::node_unit(a.forest.node(l[j])) by {
                        assert(a.store.lab(match_id, l.len() - 1 - j) == a.forest.node(l[j]).label);
                    }
                }
            }
            match_id
        } else {
            let first_unit_id: u32 = self.store_chain(node_id, Ghost(open));
            self.table.set(hash_id, first_unit_id);
            self.num_states += 1;
            assert(self.table_ok());
            first_unit_id
        };
        let ghost s: UnitStore = self.store;
        self.forest.free_list(node_id, Ghost(open));
        assert(self.forest.depth() == a.forest.depth());
        self.forest.set_child(final_match_id, Ghost(open));
        proof {
            let d = a.forest.depth();
            self.loads@ = self.loads@.update(d, (weigh(self.forest, self.store, self.forest.tip()) - 1) as nat);
            self.dict@ = settled_dict(a, final_match_id);
            lemma_settled(a, *self, open, final_match_id);
            lemma_entries_sketch(a, open);
            if d > 0 {
                nodes::lemma_stack_distinct(a.forest, open, 0, d);
            }
            lemma_settled_pending(a, *self, open, final_match_id);
            assert(a.sketch(false).pending =~= old(self).sketch(false).pending);
            assert(self.store.graph() =~= old(self).sketch(false).settle().graph);
        }
    }

    /// Turns everything below the node `id` of depth `t` on the path into chains.
    fn fold_to(&mut self, id: u32, Ghost(t): Ghost<int>)
        requires
            old(self).wf(t - 1, true),
            0 <= t <= old(self).forest.depth(),
            id == old(self).forest.node_stack@[t],
        ensures
            final(self).wf(t - 1, true),
            final(self).forest.node_stack@ == old(self).forest.node_stack@.take(t + 1),
            final(self).forest.path@ == old(self).forest.path@.take(t),
            final(self).store.keeps(&old(self).store),
            only_added(final(self).store, old(self).store),
            final(self).sketch(true) == old(self).sketch(true).fold_to(t),
            final(self).made == old(self).made,
            alike(final(self).dict@, old(self).dict@, old(self).cuts@),
            final(self).cuts == old(self).cuts,
    {
        assert(self.forest.node_stack@.take(self.forest.depth() + 1) =~= self.forest.node_stack@);
        assert(self.forest.path@.take(self.forest.depth()) =~= self.forest.path@);
        while self.node_on_top() != id
            invariant
                self.wf(t - 1, true),
                0 <= t <= self.forest.depth() <= old(self).forest.depth(),
                id == old(self).forest.node_stack@[t],
                self.forest.node_stack@ == old(self).forest.node_stack@.take(self.forest.depth() + 1),
                self.forest.path@ == old(self).forest.path@.take(self.forest.depth()),
                old(self).forest.shape(t - 1),
                self.store.keeps(&old(self).store),
                only_added(self.store, old(self).store),
                self.sketch(true).fold_to(t) == old(self).sketch(true).fold_to(t),
                self.made == old(self).made,
                alike(self.dict@, old(self).dict@, old(self).cuts@),
                self.cuts == old(self).cuts,
            decreases self.forest.depth(),
        {
            proof {
                assert(self.forest.node_stack@[t] == id);
                assert(self.forest.depth() > t);
            }
            let ghost st: Seq<u32> = self.forest.node_stack@;
            let ghost pa: Seq<u8> = self.forest.path@;
            let node_id: u32 = self.retire(Ghost(t - 1));
            self.settle(node_id, Ghost(t - 1));
            proof {
                assert(self.forest.node_stack@ =~= old(self).forest.node_stack@.take(self.forest.depth() + 1));
                assert(self.forest.path@ =~= old(self).forest.path@.take(self.forest.depth()));
            }
        }
        proof {
            if self.forest.depth() > t {
                nodes::lemma_stack_distinct(old(self).forest, t - 1, t, self.forest.depth());
            }
        }
    }

    /// The last node of the path.
    fn node_on_top(&self) -> (res: u32)
        requires
            self.forest.node_stack@.len() > 0,
        ensures
            res == self.forest.tip(),
    {
        self.forest.node_stack[self.forest.node_stack.len() - 1]
    }

    /// Ends the path before the node `id`, which has depth `t`: no further key passes
    /// through that node.
    fn flush(&mut self, id: u32, Ghost(t): Ghost<int>)
        requires
            old(self).wf(t - 1, true),
            0 < t <= old(self).forest.depth(),
            id == old(self).forest.node_stack@[t],
        ensures
            final(self).wf(t - 1, false),
            final(self).forest.node_stack@ == old(self).forest.node_stack@.take(t),
            final(self).forest.path@ == old(self).forest.path@.take(t - 1),
            final(self).forest.hanging().len() > 0,
            final(self).forest.hanging()[0] == id,
            final(self).forest.node(id).label == old(self).forest.node(id).label,
            only_added(final(self).store, old(self).store),
            final(self).sketch(false) == old(self).sketch(true).fold_to(t).retire(),
            final(self).made == old(self).made,
            alike(final(self).dict@, old(self).dict@, old(self).cuts@),
            final(self).cuts == old(self).cuts,
    {
        let ghost a: DawgBuilder = *self;
        self.fold_to(id, Ghost(t));
        proof {
            assert(a.forest.link_ok(t - 1));
            assert(self.forest.link_ok(t - 1));
            assert(self.forest.path@[t - 1] == a.forest.path@[t - 1]);
            assert(self.forest.node_stack@[t] == id);
        }
        let last: u32 = self.retire(Ghost(t - 1));
        proof {
            assert(self.forest.node_stack@ =~= a.forest.node_stack@.take(t));
            assert(self.forest.path@ =~= a.forest.path@.take(t - 1));
        }
    }
}

/// Another table changes nothing else.
proof fn lemma_table_frame(a: DawgBuilder, b: DawgBuilder, open: int)
    requires
        a.wf(open, false),
        b == (DawgBuilder { table: b.table, ..a }),
        b.table_ok(),
    ensures
        b.wf(open, false),
{
    assert forall|i: int| 0 <= i < b.loads@.len() implies #[trigger] b.loads@[i] == b.level(i, false) by {
        assert(a.loads@[i] == a.level(i, false));
    }
    assert forall|i: int, j: int| #![trigger b.forest.item(i, j)] b.frozen(i, j) implies node_done(
        b.forest,
        b.store,
        b.forest.item(i, j),
    ) && (i <= b.zero() ==> b.node_rep(i, b.forest.item(i, j))) by {
        assert(a.frozen(i, j));
        assert(b.forest.item(i, j) == a.forest.item(i, j));
        if i <= a.zero() {
            assert(a.node_rep(i, a.forest.item(i, j)));
        }
    }
    assert forall|i: int| 0 <= i <= b.forest.depth() && i <= b.zero() implies #[trigger] b.absent(i) by {
        assert(a.absent(i));
        assert forall|c: u8| a.in_list(i, c) implies #[trigger] b.in_list(i, c) by {
            let j = choose|j: int| a.forest.listed(i, j) && #[trigger] a.forest.label_at(i, j) == c;
            assert(b.forest.label_at(i, j) == c);
        }
    }
}

/// A new node at the end of the path stands for no key yet.
proof fn lemma_extended(a: DawgBuilder, b: DawgBuilder, open: int, res: u32, label: u8)
    requires
        a.wf(open, false),
        open == a.forest.depth() || (open == -1 && a.forest.hanging().len() == 0),
        a.forest.hanging().len() > 0 ==> label > a.forest.node(a.forest.hanging()[0]).label,
        a.store.len() + nodes::total(a.forest.lists@) < 0x4000_0000,
        b.forest.shape(-1),
        0 < res < b.forest.nodes@.len(),
        res >= a.forest.nodes@.len() || a.forest.place@[res as int] is Free,
        b.forest.node_stack@ == a.forest.node_stack@.push(res),
        b.forest.path@ == a.forest.path@.push(label),
        b.forest.lists@ == a.forest.lists@.update(
            a.forest.depth(),
            seq![res] + a.forest.hanging(),
        ).push(Seq::empty()),
        b.forest.nodes@.len() <= a.forest.nodes@.len() + 1,
        forall|n: u32|
            #![trigger b.forest.node(n)]
            n < a.forest.nodes@.len() && n != res && n != a.forest.tip() ==> b.forest.node(n) == a.forest.node(n),
        b.forest.node(res).child == 0,
        b.forest.node(res).label == label,
        b.loads@ == a.loads@.update(a.forest.depth(), a.loads@[a.forest.depth()] + 1).push(0),
        b.made@ == a.made@ + 1,
        b.store == a.store,
        b.table == a.table,
        b.num_states == a.num_states,
        b.dict == a.dict,
        b.cuts == a.cuts,
    ensures
        b.wf(-1, false),
        b.forest.hanging().len() == 0,
{
    let d = a.forest.depth();
    let l = seq![res] + a.forest.hanging();
    let tip = a.forest.tip();
    assert(b.forest.depth() == d + 1);
    assert(b.forest.lists@[d] == l);
    assert(b.forest.lists@[d + 1].len() == 0);
    assert(b.forest.lists@.drop_last().drop_last() =~= a.forest.lists@.drop_last());
    assert(nodes::total(b.forest.lists@) == nodes::total(a.forest.lists@) + 1) by {
        reveal_with_fuel(nodes::total, 3);
    }
    lemma_sum_top(a.loads@, a.loads@[d] + 1);
    lemma_sum_push(a.loads@.update(d, a.loads@[d] + 1), 0);
    // the other nodes stay as they are
    assert forall|i: int, j: int| #![trigger b.forest.item(i, j)] b.frozen(i, j) implies {
        let n = b.forest.item(i, j);
        &&& b.forest.node(n) == a.forest.node(n)
        &&& i <= d
        &&& j > 0
        &&& n == a.forest.item(i, if i == d {
            j - 1
        } else {
            j
        })
        &&& a.frozen(i, if i == d {
            j - 1
        } else {
            j
        })
    } by {
        let n = b.forest.item(i, j);
        assert(i <= d);
        let p = if i == d {
            j - 1
        } else {
            j
        };
        if i < d {
            assert(b.forest.lists@[i] == a.forest.lists@[i]);
        }
        assert(n == a.forest.item(i, p));
        assert(a.forest.listed(i, p));
        assert(a.forest.item_ok(i, p, open));
        assert(n != tip) by {
            if d > 0 {
                assert(a.forest.link_ok(d - 1));
                assert(a.forest.listed(d - 1, 0));
                assert(a.forest.item_ok(d - 1, 0, open));
            }
        }
    }
    assert forall|i: int| 0 <= i < b.loads@.len() implies #[trigger] b.loads@[i] == b.level(i, false) by {
        if i <= d {
            assert(a.loads@[i] == a.level(i, false));
            let r = b.forest.lists@[i].drop_first();
            assert(b.forest.link_ok(i));
            if i == d {
                assert(r =~= a.forest.hanging());
            } else {
                assert(b.forest.lists@[i] == a.forest.lists@[i]);
            }
            assert forall|j: int| #![trigger r[j]] 0 <= j < r.len() implies weigh(a.forest, a.store, r[j]) == weigh(
                b.forest,
                b.store,
                r[j],
            ) by {
                assert(r[j] == b.forest.item(i, j + 1));
                assert(b.frozen(i, j + 1));
            }
            lemma_mass_frame(a.forest, a.store, b.forest, b.store, r);
        }
    }
    words::lemma_first_zero(b.forest.path@);
    words::lemma_first_zero_take(b.forest.path@, d);
    assert(b.forest.path@.take(d) =~= a.forest.path@);
    assert forall|i: int| 0 <= i <= d implies b.prefix(i) == a.prefix(i) by {
        assert(b.prefix(i) =~= a.prefix(i));
    }
    assert forall|i: int, j: int| #![trigger b.forest.item(i, j)] b.frozen(i, j) && i <= b.zero() implies b.node_rep(
        i,
        b.forest.item(i, j),
    ) by {
        let p = if i == d {
            j - 1
        } else {
            j
        };
        assert(a.node_rep(i, a.forest.item(i, p)));
    }
    assert forall|i: int| 0 <= i <= d && i <= b.zero() implies #[trigger] b.absent(i) by {
        assert(a.absent(i));
        assert forall|c: u8| a.in_list(i, c) implies #[trigger] b.in_list(i, c) by {
            let j = choose|j: int| a.forest.listed(i, j) && #[trigger] a.forest.label_at(i, j) == c;
            let p = if i == d {
                j + 1
            } else {
                j
            };
            if i < d {
                assert(b.forest.lists@[i] == a.forest.lists@[i]);
            }
            assert(b.forest.listed(i, p));
            assert(a.forest.item_ok(i, j, open));
            assert(b.forest.item(i, p) == a.forest.item(i, j));
            assert(a.forest.item(i, j) != res);
            assert(b.forest.label_at(i, p) == c) by {
                if a.forest.item(i, j) == tip {
                    assert(d > 0);
                    assert(b.forest.link_ok(d - 1));
                    assert(a.forest.link_ok(d - 1));
                    assert(b.forest.path@[d - 1] == a.forest.path@[d - 1]);
                }
            }
        }
    }
    if d + 1 <= b.zero() {
        lemma_nothing_below(a, open, label);
        let q = b.prefix(d + 1);
        assert(q =~= a.prefix(d).push(label));
        assert(q + Seq::<u8>::empty() =~= q);
        assert forall|c: u8, k: Seq<u8>| c != 0 implies (#[trigger] (b.dict@)(q.push(c) + k)) is None by {
            assert(q.push(c) + k =~= q + trie::cons(c, k));
        }
        assert(b.absent(d + 1));
    }
}

/// No key goes on with a label larger than those of the children of the last node.
proof fn lemma_nothing_below(a: DawgBuilder, open: int, label: u8)
    requires
        a.wf(open, false),
        a.forest.depth() <= a.zero(),
        a.forest.hanging().len() > 0 ==> label > a.forest.node(a.forest.hanging()[0]).label,
    ensures
        forall|k: Seq<u8>| (#[trigger] (a.dict@)(a.prefix(a.forest.depth()).push(label) + k)) is None,
        !a.in_list(a.forest.depth(), label),
{
    let d = a.forest.depth();
    let p = a.prefix(d);
    assert(a.absent(d));
    assert(!a.in_list(d, label)) by {
        if a.in_list(d, label) {
            let j = choose|j: int| a.forest.listed(d, j) && #[trigger] a.forest.label_at(d, j) == label;
            assert(a.forest.listed(d, 0));
            if j > 0 {
                assert(a.forest.label_at(d, 0) > a.forest.label_at(d, j));
            }
        }
    }
    assert forall|k: Seq<u8>| (#[trigger] (a.dict@)(p.push(label) + k)) is None by {
        if label == 0 {
            let key = p.push(label) + k;
            assert(key[d] == 0);
            assert(key.contains(0));
        }
    }
}

impl DawgBuilder {
    /// Makes the path longer by one label.
    fn extend(&mut self, label: u8, Ghost(open): Ghost<int>)
        requires
            old(self).wf(open, false),
            open == old(self).forest.depth() || (open == -1 && old(self).forest.hanging().len() == 0),
            old(self).forest.hanging().len() > 0 ==> label > old(self).forest.node(
                old(self).forest.hanging()[0],
            ).label,
            old(self).store.len() + nodes::total(old(self).forest.lists@) < 0x4000_0000,
        ensures
            final(self).wf(-1, false),
            final(self).forest.hanging().len() == 0,
            final(self).forest.path@ == old(self).forest.path@.push(label),
            final(self).sketch(false) == (Sketch {
                pending: old(self).sketch(false).pending.push(Seq::empty()),
                path: old(self).sketch(false).path.push(label),
                ..old(self).sketch(false)
            }),
            final(self).store == old(self).store,
            final(self).made@ == old(self).made@ + 1,
            final(self).dict == old(self).dict,
            final(self).cuts == old(self).cuts,
    {
        let res: u32 = self.forest.grow(label);
        proof {
            let d = old(self).forest.depth();
            self.loads@ = self.loads@.update(d, self.loads@[d] + 1).push(0);
            self.made@ = self.made@ + 1;
            lemma_extended(*old(self), *self, open, res, label);
            lemma_extended_sketch(*old(self), *self, open, res, label);
        }
    }
}

/// The last node of the path takes the value of the key that leads to it.
proof fn lemma_valued(a: DawgBuilder, b: DawgBuilder, key: Seq<u8>, value: i32)
    requires
        a.wf(-1, false),
        a.forest.hanging().len() == 0,
        a.forest.path@ == key.push(0),
        value >= 0,
        (a.dict@)(words::cut(key)) is None,
        b.forest.shape(-1),
        b.forest == (NodeForest { nodes: b.forest.nodes, ..a.forest }),
        b.forest.nodes@ == a.forest.nodes@.update(
            a.forest.tip() as int,
            DawgNode { child: value as u32, ..a.forest.node(a.forest.tip()) },
        ),
        b.dict@ == words::with_key(a.dict@, words::cut(key), value),
        b.cuts@ == with_cut(a.cuts@, key),
        b.loads == a.loads,
        b.store == a.store,
        b.table == a.table,
        b.num_states == a.num_states,
        b.made == a.made,
    ensures
        b.wf(-1, true),
{
    let d = a.forest.depth();
    let tip = a.forest.tip();
    nodes::lemma_stack_distinct(a.forest, -1, 0, d);
    assert(a.forest.link_ok(d - 1));
    assert(b.forest.link_ok(d - 1));
    assert(a.forest.node(tip).label == 0);
    assert(a.forest.listed(d - 1, 0));
    assert(a.forest.item_ok(d - 1, 0, -1));
    assert forall|i: int, j: int| #![trigger b.forest.item(i, j)] b.frozen(i, j) implies {
        let n = b.forest.item(i, j);
        &&& n == a.forest.item(i, j)
        &&& a.frozen(i, j)
        &&& b.forest.node(n) == a.forest.node(n)
        &&& i < d
        &&& j > 0
    } by {
        assert(b.forest.item(i, j) == a.forest.item(i, j));
        assert(a.forest.listed(i, j));
        assert(a.forest.item_ok(i, j, -1));
    }
    assert forall|i: int| 0 <= i < b.loads@.len() implies #[trigger] b.loads@[i] == b.level(i, true) by {
        assert(a.loads@[i] == a.level(i, false));
        if i < d {
            let r = b.forest.lists@[i].drop_first();
            assert(b.forest.link_ok(i));
            assert forall|j: int| #![trigger r[j]] 0 <= j < r.len() implies weigh(a.forest, a.store, r[j]) == weigh(
                b.forest,
                b.store,
                r[j],
            ) by {
                assert(r[j] == b.forest.item(i, j + 1));
                assert(b.frozen(i, j + 1));
            }
            lemma_mass_frame(a.forest, a.store, b.forest, b.store, r);
        }
    }
    lemma_valued_rep(a, b, key, value);
}

/// The cut keys once `key` is among the keys.
pub open spec fn with_cut(cuts: Set<Seq<u8>>, key: Seq<u8>) -> Set<Seq<u8>> {
    if key.contains(0) {
        cuts.insert(words::cut(key))
    } else {
        cuts
    }
}

proof fn lemma_valued_rep(a: DawgBuilder, b: DawgBuilder, key: Seq<u8>, value: i32)
    requires
        a.wf(-1, false),
        a.forest.hanging().len() == 0,
        a.forest.path@ == key.push(0),
        value >= 0,
        (a.dict@)(words::cut(key)) is None,
        b.forest.shape(-1),
        b.forest == (NodeForest { nodes: b.forest.nodes, ..a.forest }),
        b.forest.nodes@ == a.forest.nodes@.update(
            a.forest.tip() as int,
            DawgNode { child: value as u32, ..a.forest.node(a.forest.tip()) },
        ),
        b.dict@ == words::with_key(a.dict@, words::cut(key), value),
        b.cuts@ == with_cut(a.cuts@, key),
        b.store == a.store,
        forall|i: int, j: int|
            #![trigger b.forest.item(i, j)]
            b.frozen(i, j) ==> {
                let n = b.forest.item(i, j);
                &&& n == a.forest.item(i, j)
                &&& a.frozen(i, j)
                &&& b.forest.node(n) == a.forest.node(n)
                &&& i < a.forest.depth()
                &&& j > 0
            },
    ensures
        b.rep(true),
{
    let d = a.forest.depth();
    let z = a.zero();
    let short = words::cut(key);
    nodes::lemma_stack_distinct(a.forest, -1, 0, d);
    words::lemma_first_zero(key);
    words::lemma_first_zero(a.forest.path@);
    words::lemma_first_zero_closed(key);
    assert(a.forest.path@[z] == 0);
    assert(short.len() == z);
    assert(b.prefix(z) == short);
    assert forall|i: int, j: int| #![trigger b.forest.item(i, j)] b.frozen(i, j) && i <= b.zero() implies b.node_rep(
        i,
        b.forest.item(i, j),
    ) by {
        let n = b.forest.item(i, j);
        let c = b.forest.node(n).label;
        assert(a.node_rep(i, a.forest.item(i, j)));
        lemma_off_path(a, -1, i, j);
        assert(a.forest.path@[i] > c);
        assert(i < z);
        assert(short[i] == a.forest.path@[i]);
        if c == 0 {
            assert(b.prefix(i).len() < short.len());
        } else {
            assert forall|k: Seq<u8>| #[trigger] (b.dict@)(b.prefix(i).push(c) + k) == (
            b.store.chains@[b.forest.node(n).child].den)(k) by {
                let other = b.prefix(i).push(c) + k;
                assert(other[i] == c);
                assert(other != short);
                assert((a.dict@)(a.prefix(i).push(c) + k) == (a.store.chains@[a.forest.node(n).child].den)(k));
            }
        }
    }
    assert forall|i: int| 0 <= i < d && i <= b.zero() implies #[trigger] b.absent(i) by {
        assert(a.absent(i));
        assert(b.forest.link_ok(i));
        assert forall|c: u8| a.in_list(i, c) implies #[trigger] b.in_list(i, c) by {
            let j = choose|j: int| a.forest.listed(i, j) && #[trigger] a.forest.label_at(i, j) == c;
            assert(b.forest.listed(i, j));
            assert(a.forest.item_ok(i, j, -1));
            assert(b.forest.label_at(i, j) == c);
        }
        assert(b.forest.listed(i, 0));
        assert(b.forest.label_at(i, 0) == b.forest.path@[i]);
        assert(b.in_list(i, b.forest.path@[i]));
        if !b.in_list(i, 0) {
            assert(i < z);
            assert(b.prefix(i).len() < short.len());
        }
        assert forall|c: u8, k: Seq<u8>| c != 0 && !b.in_list(i, c) implies (#[trigger] (b.dict@)(
            b.prefix(i).push(c) + k,
        )) is None by {
            let other = b.prefix(i).push(c) + k;
            assert(other[i] == c);
            if i < z {
                assert(short[i] == b.forest.path@[i]);
            } else {
                assert(other.len() > short.len());
            }
            assert(other != short);
            assert((a.dict@)(a.prefix(i).push(c) + k) is None);
        }
    }
    assert(b.tip_rep()) by {
        assert(b.forest.link_ok(d - 1));
    }
    assert(!short.contains(0)) by {
        if short.contains(0) {
            let x = choose|x: int| 0 <= x < short.len() && short[x] == 0;
            assert(key[x] != 0);
        }
    }
    assert forall|k: Seq<u8>| k.contains(0) implies (#[trigger] (b.dict@)(k)) is None by {
        assert((a.dict@)(k) is None);
    }
}

impl DawgBuilder {
    /// Ready for the next key: the path is that of the last key.
    pub open spec fn ready(&self) -> bool {
        &&& self.wf(-1, self.forest.path@.len() > 0)
        &&& self.forest.path@.len() > 0 ==> self.forest.path@.last() == 0
        &&& self.forest.path@.len() == 0 ==> self.forest.hanging().len() == 0
    }

    /// What the builder holds when it is ready for the next key.
    pub open spec fn holds(&self) -> Sketch {
        self.sketch(self.forest.path@.len() > 0)
    }

    /// The bytes of the last key, with a zero at the end; nothing before the first key.
    pub open spec fn path(&self) -> Seq<u8> {
        self.forest.path@
    }

    /// Not yet in use.
    pub open spec fn fresh(&self) -> bool {
        &&& self.forest.nodes@.len() == 0
        &&& self.forest.node_stack@.len() == 0
        &&& self.forest.recycle_bin@.len() == 0
        &&& self.store.len() == 0
        &&& self.store.labels@.len() == 0
        &&& self.store.is_intersections@.len() == 0
        &&& self.store.is_intersections.wf()
        &&& self.store.chains@ == Map::<u32, Chain>::empty()
    }

    /// A builder that is not yet in use. It has no table, no states and no keys.
    pub fn new() -> (res: DawgBuilder)
        ensures
            res.fresh(),
            res.path() == Seq::<u8>::empty(),
            res.table@ == Seq::<u32>::empty(),
            res.num_states == 0,
            res.loads@ == Seq::<nat>::empty(),
            res.made@ == 0,
            res.cuts@ == Set::<Seq<u8>>::empty(),
            forall|k: Seq<u8>| (#[trigger] (res.dict@)(k)) is None,
    {
        DawgBuilder {
            forest: NodeForest::new(),
            store: UnitStore::new(),
            table: Vec::new(),
            num_states: 0,
            loads: Ghost(Seq::empty()),
            made: Ghost(0),
            dict: Ghost(|k: Seq<u8>| None),
            cuts: Ghost(Set::empty()),
        }
    }

    /// Makes the root. No key is there yet.
    pub fn init(&mut self)
        requires
            old(self).fresh(),
        ensures
            final(self).ready(),
            final(self).path() == Seq::<u8>::empty(),
            final(self).holds() == sketch::fresh(),
            final(self).made@ == 0,
            final(self).cuts@ == Set::<Seq<u8>>::empty(),
            forall|k: Seq<u8>| (#[trigger] (final(self).dict@)(k)) is None,
    {
        self.table = vec![0; INITIAL_TABLE_SIZE];
        self.forest.init();
        let dummy: u32 = self.store.append_unit();
        self.num_states = 1;
        proof {
            self.loads@ = seq![0nat];
            self.made@ = 0;
            self.dict@ = |k: Seq<u8>| None;
            self.cuts@ = Set::empty();
            assert(self.loads@.drop_last() =~= Seq::<nat>::empty());
            assert(sum(Seq::<nat>::empty()) == 0);
            assert(sum(self.loads@) == 0);
            assert(self.forest.lists@.drop_last() =~= Seq::<Seq<u32>>::empty());
            assert(nodes::total(Seq::<Seq<u32>>::empty()) == 0);
            assert(nodes::total(self.forest.lists@) == 0);
            assert forall|i: int| 0 <= i < self.loads@.len() implies #[trigger] self.loads@[i] == self.level(i, false) by {}
            assert(forall|i: int, j: int| !self.forest.listed(i, j));
            assert(self.rep(false));
            assert(self.sketch(false).pending =~= sketch::fresh().pending) by {
                assert(stubs(self.forest, self.done(0)) =~= Seq::empty());
            }
            assert(self.sketch(false).graph =~= sketch::fresh().graph);
            assert(self.sketch(false) =~= sketch::fresh());
        }
    }

    /// Inserts a key that comes after all keys so far. A key that is there already keeps
    /// its value. A key with a zero byte is cut before it, and its value is lost.
    pub fn insert(&mut self, key: &[u8], value: i32) -> (res: Result<(), BuildError>)
        requires
            old(self).ready(),
            key@.len() < usize::MAX,
            words::insert_error(old(self).path(), key@, value) is None ==> old(self).holds().insert(
                key@,
                value,
            ).size() <= 0x4000_0000,
        ensures
            match res {
                Ok(()) => words::insert_error(old(self).path(), key@, value) is None,
                Err(e) => words::insert_error(old(self).path(), key@, value) == Some(e.text()),
            },
            res is Err ==> *final(self) == *old(self),
            res is Ok ==> {
                &&& final(self).holds() == old(self).holds().insert(key@, value)
                &&& only_added(final(self).store, old(self).store)
                &&& final(self).ready()
                &&& final(self).path() == words::next_path(old(self).path(), key@)
                &&& final(self).made@ == old(self).made@ + words::new_bytes(old(self).path(), key@)
                &&& final(self).cuts@ == with_cut(old(self).cuts@, key@)
                &&& key@.contains(0) ==> (old(self).dict@)(words::cut(key@)) is None
                &&& alike(
                    final(self).dict@,
                    words::with_key(old(self).dict@, words::cut(key@), value),
                    old(self).cuts@,
                )
            },
    {
        if value < 0 {
            return Err(BuildError::from("Failed to insert key: negative value"));
        }
        if key.len() == 0 {
            return Err(BuildError::from("Failed to insert key: zero-length key"));
        }
        let ghost p: Seq<u8> = self.path();
        let ghost q: Seq<u8> = key@.push(0);
        let ghost l: int = words::lcp(p, q) as int;
        let mut id: u32 = 0;
        let mut key_pos: usize = 0;
        let ghost mut open: int = -1;
        proof {
            words::lemma_lcp(p, q);
        }
        while key_pos <= key.len()
            invariant_except_break
                *self == *old(self),
                key_pos <= self.forest.depth(),
                id == self.forest.node_stack@[key_pos as int],
                forall|i: int| 0 <= i < key_pos ==> #[trigger] p[i] == q[i],
                open == -1,
                p.len() > 0 ==> forall|i: int| 0 <= i < key_pos && i < key@.len() ==> #[trigger] key@[i] != 0,
                key_pos > key@.len() ==> key_pos == l,
            invariant
                old(self).ready(),
                p == old(self).path(),
                q == key@.push(0),
                l == words::lcp(p, q),
                value >= 0,
                key@.len() > 0,
                key@.len() < usize::MAX,
                key_pos <= key@.len() + 1,
            ensures
                key_pos == l,
                p.len() > 0 ==> forall|i: int| 0 <= i <= l && i < key@.len() ==> #[trigger] key@[i] != 0,
                key_pos <= key@.len() ==> {
                    &&& self.wf(open, false)
                    &&& open == self.forest.depth() || (open == -1 && self.forest.hanging().len() == 0)
                    &&& self.forest.path@ == p.take(l)
                    &&& self.forest.hanging().len() > 0 ==> q[l] > self.forest.node(self.forest.hanging()[0]).label
                    &&& p.len() > 0 ==> l < p.len() && q[l] > p[l]
                    &&& only_added(self.store, old(self).store)
                    &&& self.sketch(false) == (if p.len() == 0 {
                        old(self).sketch(false)
                    } else {
                        old(self).sketch(true).fold_to(l + 1).retire()
                    })
                    &&& self.made == old(self).made
                    &&& alike(self.dict@, old(self).dict@, old(self).cuts@)
                    &&& self.cuts == old(self).cuts
                },
                key_pos > key@.len() ==> *self == *old(self),
            decreases key@.len() + 1 - key_pos,
        {
            let key_label: u8 = if key_pos < key.len() {
                key[key_pos]
            } else {
                0
            };
            assert(key_label == q[key_pos as int]);
            let ghost t: int = key_pos as int;
            proof {
                words::lemma_lcp(p, q);
                assert(self.forest.head_ok(t));
                if t < self.forest.depth() {
                    assert(self.forest.link_ok(t));
                    assert(self.forest.listed(t, 0));
                    assert(self.forest.item_ok(t, 0, -1));
                } else if t > 0 {
                    assert(p[t - 1] == q[t - 1]);
                    assert(p[t - 1] == 0);
                    assert(t - 1 < key@.len());
                    assert(key@[t - 1] == 0);
                }
                if t > 0 {
                    nodes::lemma_stack_distinct(self.forest, -1, 0, t);
                }
            }
            let child_id: u32 = self.forest.nodes[id as usize].child;
            if child_id == 0 {
                proof {
                    assert(t == 0 && p.len() == 0);
                    words::lemma_lcp_is(p, q, 0);
                    assert(p.take(l) =~= p);
                }
                break;
            }
            if key_pos < key.len() && key_label == 0 {
                proof {
                    if l < t {
                        assert(p[l] == q[l]);
                    }
                    assert(t <= l);
                    assert(key@[t] == 0);
                }
                return Err(BuildError::from("Failed to insert key: invalid null character"));
            }
            let unit_label: u8 = self.forest.nodes[child_id as usize].label;
            assert(unit_label == p[t]);
            if key_label < unit_label {
                proof {
                    words::lemma_lcp_is(p, q, t as nat);
                }
                return Err(BuildError::from("Failed to insert key: wrong key order"));
            } else if key_label > unit_label {
                proof {
                    words::lemma_lcp_is(p, q, t as nat);
                }
                self.forest.mark(key_pos, child_id);
                proof {
                    lemma_mark_frame(*old(self), *self, t);
                    lemma_path_sketch(*old(self), *self, -1, t + 1);
                    nodes::lemma_stack_distinct(old(self).forest, -1, 0, old(self).forest.depth());
                    nodes::lemma_stack_distinct(old(self).forest, -1, t, t + 1);
                    assert(self.forest.node(self.forest.tip()).child == old(self).forest.node(
                        old(self).forest.tip(),
                    ).child);
                    assert(self.sketch(true) =~= old(self).sketch(true));
                }
                self.flush(child_id, Ghost(t + 1));
                proof {
                    open = t;
                    assert(self.forest.path@ =~= p.take(l));
                }
                break;
            }
            id = child_id;
            key_pos += 1;
            proof {
                if key_pos > key@.len() {
                    words::lemma_lcp_is(p, q, key_pos as nat);
                }
            }
        }
        if key_pos > key.len() {
            proof {
                lemma_duplicate(*self, key@);
                words::lemma_cut_whole(key@);
            }
            return Ok(());
        }
        let ghost dict: Dict = self.dict@;
        proof {
            assert(p.take(l) =~= q.take(l)) by {
                words::lemma_lcp(p, q);
            }
            lemma_key_absent(*self, open, key@, l);
        }
        let ghost start: Sketch = self.sketch(false);
        assert(start =~= start.along(q, l, l));
        proof {
            assert(words::insert_error(p, key@, value) is None);
            assert(old(self).holds().insert(key@, value).size() == start.along(q, l, q.len() as int).size());
        }
        while key_pos <= key.len()
            invariant
                l <= key_pos <= key@.len() + 1,
                key@.len() < usize::MAX,
                q == key@.push(0),
                self.wf(open, false),
                open == self.forest.depth() || (open == -1 && self.forest.hanging().len() == 0),
                key_pos > l ==> open == -1 && self.forest.hanging().len() == 0,
                key_pos == l && self.forest.hanging().len() > 0 ==> q[l] > self.forest.node(
                    self.forest.hanging()[0],
                ).label,
                self.forest.path@ == q.take(key_pos as int),
                self.sketch(false) == start.along(q, l, key_pos as int),
                only_added(self.store, old(self).store),
                self.made@ == old(self).made@ + key_pos - l,
                start.path.len() == l,
                start.along(q, l, q.len() as int).size() <= 0x4000_0000,
                self.dict@ == dict,
                self.cuts == old(self).cuts,
                l <= key@.len(),
            decreases key@.len() + 1 - key_pos,
        {
            let key_label: u8 = if key_pos < key.len() {
                key[key_pos]
            } else {
                0
            };
            assert(key_label == q[key_pos as int]);
            proof {
                lemma_size(*self, false);
                sketch::lemma_along(start, q, l, key_pos as int);
                sketch::lemma_along(start, q, l, q.len() as int);
            }
            self.extend(key_label, Ghost(open));
            proof {
                assert(self.sketch(false).path =~= q.take(key_pos + 1));
                assert(self.sketch(false) =~= start.along(q, l, key_pos + 1));
                open = -1;
                assert(self.forest.path@ =~= q.take(key_pos + 1));
            }
            key_pos += 1;
        }
        let ghost b: DawgBuilder = *self;
        proof {
            assert(q.take(key_pos as int) =~= q);
        }
        self.forest.set_value(value, Ghost(-1));
        proof {
            self.dict@ = words::with_key(dict, words::cut(key@), value);
            self.cuts@ = with_cut(self.cuts@, key@);
            lemma_valued(b, *self, key@, value);
            nodes::lemma_stack_distinct(b.forest, -1, 0, b.forest.depth());
            lemma_path_sketch(b, *self, -1, b.forest.depth());
            assert(self.sketch(true).pending == b.sketch(false).pending);
            assert(self.forest.node(self.forest.tip()).child == value as u32);
            assert(self.holds() =~= old(self).holds().insert(key@, value));
        }
        Ok(())
    }
}

/// The mark of a sibling to come changes nothing else.
proof fn lemma_mark_frame(a: DawgBuilder, b: DawgBuilder, t: int)
    requires
        a.wf(-1, true),
        0 <= t < a.forest.depth(),
        b.forest.shape(t),
        b == (DawgBuilder { forest: b.forest, ..a }),
        b.forest == (NodeForest { nodes: b.forest.nodes, ..a.forest }),
        b.forest.nodes@ == a.forest.nodes@.update(
            a.forest.node_stack@[t + 1] as int,
            DawgNode { has_sibling: true, ..a.forest.node(a.forest.node_stack@[t + 1]) },
        ),
    ensures
        b.wf(t, true),
{
    nodes::lemma_stack_distinct(a.forest, -1, t, t + 1);
    let d = a.forest.depth();
    assert forall|n: u32| n < a.forest.nodes@.len() implies (#[trigger] b.forest.node(n)).label == a.forest.node(
        n,
    ).label && b.forest.node(n).child == a.forest.node(n).child by {}
    nodes::lemma_stack_distinct(a.forest, -1, 0, d);
    assert forall|i: int, j: int| #![trigger b.forest.item(i, j)] b.forest.listed(i, j) implies a.forest.listed(i, j)
        && b.forest.item(i, j) == a.forest.item(i, j) && b.forest.item(i, j) < a.forest.nodes@.len() by {
        assert(a.forest.listed(i, j));
        assert(a.forest.item_ok(i, j, -1));
    }
    assert forall|i: int, j: int| #![trigger b.forest.item(i, j)] b.frozen(i, j) implies node_done(
        b.forest,
        b.store,
        b.forest.item(i, j),
    ) by {
        assert(a.frozen(i, j));
        assert(node_done(a.forest, a.store, a.forest.item(i, j)));
    }
    assert forall|i: int| 0 <= i < b.loads@.len() implies #[trigger] b.loads@[i] == b.level(i, true) by {
        assert(a.loads@[i] == a.level(i, true));
        if i < d {
            let r = b.forest.lists@[i].drop_first();
            assert(a.forest.link_ok(i));
            assert forall|j: int| #![trigger r[j]] 0 <= j < r.len() implies weigh(a.forest, a.store, r[j]) == weigh(
                b.forest,
                b.store,
                r[j],
            ) by {
                assert(r[j] == b.forest.item(i, j + 1));
                assert(b.forest.listed(i, j + 1));
            }
            lemma_mass_frame(a.forest, a.store, b.forest, b.store, r);
        }
    }
    assert forall|i: int, j: int| #![trigger b.forest.item(i, j)] b.frozen(i, j) && i <= b.zero() implies b.node_rep(
        i,
        b.forest.item(i, j),
    ) by {
        assert(a.frozen(i, j));
        assert(a.node_rep(i, a.forest.item(i, j)));
    }
    assert forall|i: int| 0 <= i < d && i <= b.zero() implies #[trigger] b.absent(i) by {
        assert(a.absent(i));
        assert forall|c: u8| a.in_list(i, c) implies #[trigger] b.in_list(i, c) by {
            let j = choose|j: int| a.forest.listed(i, j) && #[trigger] a.forest.label_at(i, j) == c;
            assert(b.forest.listed(i, j));
            assert(b.forest.item(i, j) == a.forest.item(i, j));
            assert(b.forest.label_at(i, j) == c);
        }
    }
    assert(a.tip_rep());
    assert(b.tip_rep()) by {
        assert(forall|i: int| b.prefix(i) == a.prefix(i));
        assert(a.forest.head_ok(d));
    }
}

/// A key that the path follows to a zero is there.
proof fn lemma_duplicate(a: DawgBuilder, key: Seq<u8>)
    requires
        a.ready(),
        a.path().len() > 0,
        words::lcp(a.path(), key.push(0)) == key.len() + 1,
        forall|i: int| 0 <= i < key.len() ==> #[trigger] key[i] != 0,
    ensures
        (a.dict@)(key) is Some,
        !key.contains(0),
{
    let p = a.path();
    let q = key.push(0);
    let n = key.len() as int;
    words::lemma_lcp(p, q);
    assert forall|i: int| 0 <= i < n implies #[trigger] p[i] != 0 by {
        assert(p[i] == q[i]);
        assert(key[i] != 0);
    }
    assert(p[n] == q[n]);
    words::lemma_first_zero_is(p, n as nat);
    assert(a.prefix(n) =~= key);
    if n == p.len() - 1 {
        assert(a.forest.link_ok(n));
        assert(a.tip_rep());
    } else {
        assert(a.cuts@.contains(a.prefix(a.zero())));
    }
}

/// A key that leaves the path behind the last child of a node is not there.
proof fn lemma_key_absent(a: DawgBuilder, open: int, key: Seq<u8>, l: int)
    requires
        a.wf(open, false),
        0 <= l <= key.len(),
        a.forest.path@ == key.push(0).take(l),
        forall|i: int| 0 <= i < l ==> #[trigger] key[i] != 0,
        a.forest.hanging().len() > 0 ==> key.push(0)[l] > a.forest.node(a.forest.hanging()[0]).label,
    ensures
        (a.dict@)(words::cut(key)) is None,
{
    let label = key.push(0)[l];
    let d = a.forest.depth();
    let short = words::cut(key);
    words::lemma_first_zero(key);
    assert forall|i: int| 0 <= i < l implies #[trigger] a.forest.path@[i] != 0 by {
        assert(key[i] != 0);
    }
    words::lemma_first_zero_is(a.forest.path@, l as nat);
    lemma_nothing_below(a, open, label);
    if words::first_zero(key) > l {
        let k = short.skip(l + 1);
        assert(a.prefix(d).push(label) + k =~= short);
    } else {
        assert(words::first_zero(key) == l);
        assert(label == 0);
        assert(a.absent(d));
        assert(a.prefix(d) =~= short);
    }
}

impl DawgBuilder {
    /// Turns all that is left into chains. The first unit then names the chain of the root,
    /// or none if no key was inserted.
    pub fn finish(&mut self)
        requires
            old(self).ready(),
        ensures
            final(self).store.wf(),
            final(self).store.is_intersections.ranked(),
            final(self).store.len() <= 0x4000_0000,
            final(self).store.graph() == old(self).holds().finish(),
            final(self).forest.nodes@ == Seq::<DawgNode>::empty(),
            final(self).forest.node_stack@ == Seq::<u32>::empty(),
            final(self).forest.recycle_bin@ == Seq::<u32>::empty(),
            final(self).table@ == Seq::<u32>::empty(),
            ({
                let root = chains::unit_child(final(self).store.units@[0].0);
                if old(self).path().len() == 0 {
                    root == 0
                } else {
                    &&& final(self).store.chains@.contains_key(root)
                    &&& final(self).store.chains@[root].weight <= old(self).made@
                    &&& alike(final(self).store.chains@[root].den, old(self).dict@, old(self).cuts@)
                }
            }),
    {
        let ghost p: Seq<u8> = self.path();
        if self.node_on_top() != 0 {
            self.fold_to(0, Ghost(0));
        }
        proof {
            if p.len() > 0 {
                nodes::lemma_stack_distinct(old(self).forest, -1, 0, p.len() as int);
                assert(self.forest.depth() == 0);
                assert(self.loads@[0] == self.level(0, true));
                assert(self.loads@.drop_last() =~= Seq::<nat>::empty());
                assert(sum(self.loads@) == sum(self.loads@.drop_last()) + self.loads@[0]);
                let child = self.forest.node(0).child;
                assert(node_done(self.forest, self.store, 0));
                assert(self.store.chain_ok(child, self.store.len()));
                assert(self.tip_rep());
                assert forall|k: Seq<u8>| #[trigger] (self.store.chains@[child].den)(k) == (self.dict@)(k) by {
                    assert(self.prefix(0) + k =~= k);
                    assert((self.dict@)(self.prefix(0) + k) == (self.store.chains@[child].den)(k));
                }
            } else {
                assert(self.forest.head_ok(0));
                assert(self.forest.node(0).child == 0);
            }
            nodes::lemma_node_unit(self.forest.node(0));
        }
        let ghost a: UnitStore = self.store;
        let root: DawgNode = self.forest.nodes[0];
        self.store.units.set(0, DawgUnit(root.unit()));
        self.store.labels.set(0, root.label);
        proof {
            assert forall|u: u32| #[trigger] self.store.chains@.contains_key(u) implies self.store.chain_ok(
                u,
                self.store.len(),
            ) by {
                assert(a.chains@.contains_key(u));
                chains::lemma_chain_frame(a, self.store, u, a.len(), a.len());
            }
            assert forall|u: u32|
                #![trigger self.store.chains@.contains_key(u)]
                1 <= u < a.len() && (self.store.labels@[u as int] == 0 || chains::unit_state(
                    self.store.units@[u as int].0,
                )) implies self.store.chains@.contains_key(u) by {
                assert(a.chains@.contains_key(u));
            }
        }
        self.forest.nodes.clear();
        self.table.clear();
        self.forest.node_stack.clear();
        self.forest.recycle_bin.clear();
        let ghost b: UnitStore = self.store;
        self.store.is_intersections.build();
        proof {
            lemma_marked(b, self.store);
            assert(self.store.graph() =~= old(self).holds().finish());
        }
    }
}

/// No list is longer than there are nodes.
proof fn lemma_list_len(f: NodeForest, open: int)
    requires
        f.shape(open),
    ensures
        f.hanging().len() < f.nodes@.len(),
{
}

} // verus!
