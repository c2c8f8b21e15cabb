//! The word graph that a sequence of keys becomes.
//!
//! A sketch holds what a word graph under construction holds, without the numbers of its
//! nodes: the chains so far, the table in which equal chains are looked up, and, for each node
//! on the path of the last key, the children that are done.

use vstd::prelude::*;
use crate::chains;
use crate::chains::Graph;
use crate::nodes;
use crate::nodes::DawgNode;
use crate::words;

verus! {

/// The entries of the chain from `u` on: the labels and numbers of its units.
pub open spec fn entries_from(g: Graph, u: int) -> Seq<(u8, u32)>
    decreases g.units.len() - u,
{
    if u >= g.units.len() {
        Seq::empty()
    } else if chains::unit_sibling(g.units[u]) {
        seq![(g.labels[u], g.units[u])] + entries_from(g, u + 1)
    } else {
        seq![(g.labels[u], g.units[u])]
    }
}

/// The `n`th place that is tried from `start` on.
pub open spec fn probe_at(start: int, n: int, len: int) -> int {
    if start + n < len {
        start + n
    } else {
        start + n - len
    }
}

/// The first empty place from `start` on, or `start` if there is none.
pub open spec fn probe(t: Seq<u32>, start: int, n: int) -> int
    decreases t.len() - n,
{
    if n >= t.len() {
        start
    } else if t[probe_at(start, n, t.len() as int)] == 0 {
        probe_at(start, n, t.len() as int)
    } else {
        probe(t, start, n + 1)
    }
}

/// The first place from `start` on that is empty or holds a chain with these entries, and
/// that chain or zero; `start` and zero if there is none.
pub open spec fn seek(t: Seq<u32>, g: Graph, es: Seq<(u8, u32)>, start: int, n: int) -> (int, u32)
    decreases t.len() - n,
{
    if n >= t.len() {
        (start, 0)
    } else {
        let h = probe_at(start, n, t.len() as int);
        if t[h] == 0 {
            (h, 0)
        } else if entries_from(g, t[h] as int) == es {
            (h, t[h])
        } else {
            seek(t, g, es, start, n + 1)
        }
    }
}

/// A table of `len` places that holds the chains among the units below `n`.
pub open spec fn rehash(g: Graph, len: nat, n: int) -> Seq<u32>
    decreases n,
{
    if n <= 1 {
        Seq::new(len, |i: int| 0u32)
    } else {
        let t = rehash(g, len, n - 1);
        let u = (n - 1) as u32;
        if g.labels[n - 1] == 0 || chains::unit_state(g.units[n - 1]) {
            t.update(probe(t, chains::entries_hash(entries_from(g, n - 1)) as int % len as int, 0), u)
        } else {
            t
        }
    }
}

/// The entries of children that are done, given their labels and what they name.
pub open spec fn entries_of(list: Seq<(u8, u32)>) -> Seq<(u8, u32)> {
    Seq::new(
        list.len(),
        |j: int|
            {
                let node = DawgNode {
                    child: list[j].1,
                    sibling: 0,
                    label: list[j].0,
                    is_state: j + 1 == list.len(),
                    has_sibling: j > 0,
                };
                (list[j].0, nodes::node_unit(node))
            },
    )
}

/// A word graph with one chain more, whose entries are given from the last to the first.
pub open spec fn appended(g: Graph, es: Seq<(u8, u32)>) -> Graph {
    Graph {
        units: g.units + Seq::new(es.len(), |i: int| es[es.len() - 1 - i].1),
        labels: g.labels + Seq::new(es.len(), |i: int| es[es.len() - 1 - i].0),
        marks: g.marks + Seq::new(es.len(), |i: int| false),
    }
}

/// A word graph under construction.
#[verifier::ext_equal]
pub struct Sketch {
    pub graph: Graph,
    pub table: Seq<u32>,
    pub states: nat,
    /// The children of each node of the path that are done, from the largest label to the
    /// smallest: their labels, and the chains that they name or the values that they hold.
    pub pending: Seq<Seq<(u8, u32)>>,
    /// The labels on the path.
    pub path: Seq<u8>,
    /// What the last node of the path names or holds, if it takes no more children.
    pub tip: u32,
}

impl Sketch {
    /// The table, made twice as large if there are too many chains for it.
    pub open spec fn roomy(self) -> Seq<u32> {
        if self.states >= self.table.len() - self.table.len() / 4 {
            rehash(self.graph, 2 * self.table.len(), self.graph.units.len() as int)
        } else {
            self.table
        }
    }

    /// The children of the last node become a chain. If the table has a chain with the same
    /// entries, that chain is used and marked, and no unit is added.
    pub open spec fn settle(self) -> Sketch {
        let t = self.roomy();
        let es = entries_of(self.pending.last());
        let (h, m) = seek(t, self.graph, es, chains::entries_hash(es) as int % t.len() as int, 0);
        let pending = self.pending.update(self.pending.len() - 1, Seq::empty());
        if m != 0 {
            Sketch {
                graph: Graph { marks: self.graph.marks.update(m as int, true), ..self.graph },
                table: t,
                pending: pending,
                tip: m,
                ..self
            }
        } else {
            let first = self.graph.units.len() as u32;
            Sketch {
                graph: appended(self.graph, es),
                table: t.update(h, first),
                states: self.states + 1,
                pending: pending,
                tip: first,
                ..self
            }
        }
    }

    /// The last node leaves the path.
    pub open spec fn retire(self) -> Sketch {
        let d = self.path.len() - 1;
        Sketch {
            pending: self.pending.drop_last().update(d, seq![(self.path[d], self.tip)] + self.pending[d]),
            path: self.path.drop_last(),
            tip: 0,
            ..self
        }
    }

    /// Everything below the node of depth `t` on the path becomes chains.
    pub open spec fn fold_to(self, t: int) -> Sketch
        decreases self.path.len(),
    {
        if self.path.len() <= t || self.path.len() == 0 {
            self
        } else {
            self.retire().settle().fold_to(t)
        }
    }

    /// The path goes on along `q`, from its `l`th label up to the `k`th.
    pub open spec fn along(self, q: Seq<u8>, l: int, k: int) -> Sketch {
        Sketch {
            pending: self.pending + Seq::new((k - l) as nat, |i: int| Seq::<(u8, u32)>::empty()),
            path: q.take(k),
            ..self
        }
    }

    /// A key is inserted. What its path leaves becomes chains first.
    pub open spec fn insert(self, key: Seq<u8>, value: i32) -> Sketch {
        let q = key.push(0);
        let l = words::lcp(self.path, q) as int;
        if l == q.len() {
            self
        } else {
            let start = if self.path.len() == 0 {
                self
            } else {
                self.fold_to(l + 1).retire()
            };
            Sketch { tip: value as u32, ..start.along(q, l, q.len() as int) }
        }
    }

    /// Everything becomes chains; the first unit names the chain of the root.
    pub open spec fn finish(self) -> Graph {
        let s = self.fold_to(0);
        let root = DawgNode { child: s.tip, sibling: 0, label: 0xFF, is_state: false, has_sibling: false };
        Graph {
            units: s.graph.units.update(0, nodes::node_unit(root)),
            labels: s.graph.labels.update(0, 0xFF),
            ..s.graph
        }
    }
}

/// The number of children in some lists.
pub open spec fn count(lists: Seq<Seq<(u8, u32)>>) -> nat
    decreases lists.len(),
{
    if lists.len() == 0 {
        0
    } else {
        count(lists.drop_last()) + lists.last().len()
    }
}

impl Sketch {
    /// The units and the nodes that wait to become units.
    pub open spec fn size(self) -> nat {
        self.graph.units.len() + self.path.len() + count(self.pending)
    }
}

/// No keys.
pub open spec fn fresh() -> Sketch {
    Sketch {
        graph: Graph { units: seq![0u32], labels: seq![0u8], marks: seq![false] },
        table: Seq::new(1024, |i: int| 0u32),
        states: 1,
        pending: seq![Seq::empty()],
        path: Seq::empty(),
        tip: 0,
    }
}

/// The first `n` keys are inserted.
pub open spec fn after(keys: Seq<Seq<u8>>, values: Seq<i32>, n: int) -> Sketch
    decreases n,
{
    if n <= 0 {
        fresh()
    } else {
        after(keys, values, n - 1).insert(keys[n - 1], values[n - 1])
    }
}

/// The word graph of the keys and values.
pub open spec fn graph_of(keys: Seq<Seq<u8>>, values: Seq<i32>) -> Graph {
    after(keys, values, keys.len() as int).finish()
}

/// Whether the numbers of units and nodes fit while the keys are inserted.
pub open spec fn roomy(keys: Seq<Seq<u8>>, values: Seq<i32>) -> bool {
    &&& forall|i: int| 0 <= i < keys.len() ==> (#[trigger] keys[i]).len() < usize::MAX
    &&& forall|i: int|
        0 <= i <= keys.len() && words::sequence_error(keys, values, i) is None ==> (#[trigger] after(
            keys,
            values,
            i,
        )).size() <= 0x4000_0000
}

proof fn lemma_count_top(lists: Seq<Seq<(u8, u32)>>, l: Seq<(u8, u32)>)
    requires
        lists.len() > 0,
    ensures
        count(lists.update(lists.len() - 1, l)) == count(lists) - lists.last().len() + l.len(),
{
    assert(lists.update(lists.len() - 1, l).drop_last() =~= lists.drop_last());
}

proof fn lemma_count_empty(lists: Seq<Seq<(u8, u32)>>, n: nat)
    ensures
        count(lists + Seq::new(n, |i: int| Seq::<(u8, u32)>::empty())) == count(lists),
    decreases n,
{
    let more = lists + Seq::new(n, |i: int| Seq::<(u8, u32)>::empty());
    if n == 0 {
        assert(more =~= lists);
    } else {
        lemma_count_empty(lists, (n - 1) as nat);
        assert(more.drop_last() =~= lists + Seq::new((n - 1) as nat, |i: int| Seq::<(u8, u32)>::empty()));
    }
}

/// A path that goes on adds its labels to the size.
pub proof fn lemma_along(s: Sketch, q: Seq<u8>, l: int, k: int)
    requires
        0 <= l <= k <= q.len(),
        s.path.len() == l,
    ensures
        s.along(q, l, k).size() == s.size() + (k - l),
{
    lemma_count_empty(s.pending, (k - l) as nat);
}

pub proof fn lemma_retire_size(s: Sketch)
    requires
        s.path.len() > 0,
        s.pending.len() == s.path.len() + 1,
        s.pending.last().len() == 0,
    ensures
        s.retire().size() == s.size(),
        s.retire().pending.len() == s.retire().path.len() + 1,
        s.retire().path.len() == s.path.len() - 1,
        s.retire().path == s.path.drop_last(),
{
    let d = s.path.len() - 1;
    let lists = s.pending.drop_last();
    lemma_count_top(lists, seq![(s.path[d], s.tip)] + s.pending[d]);
    assert(lists.last() == s.pending[d]);
}

pub proof fn lemma_settle_size(s: Sketch)
    requires
        s.pending.len() > 0,
    ensures
        s.settle().size() <= s.size(),
        s.settle().path == s.path,
        s.settle().pending.len() == s.pending.len(),
        s.settle().pending.last().len() == 0,
{
    lemma_count_top(s.pending, Seq::empty());
}

pub proof fn lemma_fold_size(s: Sketch, t: int)
    requires
        0 <= t,
        s.pending.len() == s.path.len() + 1,
        s.pending.last().len() == 0,
    ensures
        s.fold_to(t).size() <= s.size(),
        s.fold_to(t).pending.len() == s.fold_to(t).path.len() + 1,
        s.fold_to(t).pending.last().len() == 0,
        s.fold_to(t).path == (if t < s.path.len() {
            s.path.take(t)
        } else {
            s.path
        }),
    decreases s.path.len(),
{
    if s.path.len() > t {
        lemma_retire_size(s);
        lemma_settle_size(s.retire());
        lemma_fold_size(s.retire().settle(), t);
        assert(s.path.drop_last().take(t) =~= s.path.take(t));
        if s.path.len() == t + 1 {
            assert(s.path.drop_last() =~= s.path.take(t));
        }
    }
}

/// The size grows by no more than the bytes that a key adds.
pub proof fn lemma_after_size(keys: Seq<Seq<u8>>, values: Seq<i32>, n: int)
    requires
        0 <= n <= keys.len(),
        words::sequence_error(keys, values, n) is None,
    ensures
        after(keys, values, n).size() <= words::trie_size(keys, n) + 1,
        after(keys, values, n).path == words::path_after(keys, n),
        after(keys, values, n).pending.len() == after(keys, values, n).path.len() + 1,
        after(keys, values, n).pending.last().len() == 0,
    decreases n,
{
    if n == 0 {
        assert(fresh().pending.drop_last() =~= Seq::empty());
        assert(count(fresh().pending.drop_last()) == 0);
    } else {
        lemma_after_size(keys, values, n - 1);
        let s = after(keys, values, n - 1);
        let key = keys[n - 1];
        let q = key.push(0);
        let l = words::lcp(s.path, q) as int;
        words::lemma_lcp(s.path, q);
        words::lemma_new_bytes(keys, n - 1, values[n - 1]);
        if l < q.len() {
            if s.path.len() == 0 {
                lemma_along(s, q, l, q.len() as int);
            } else {
                if l == s.path.len() {
                    words::lemma_path_after(keys, n - 1);
                    lemma_path_end(keys, n - 1);
                    // the path ends with a zero, which the key would have too
                    assert(s.path[l - 1] == q[l - 1]);
                    assert(key[l - 1] == 0);
                }
                lemma_fold_size(s, l + 1);
                let f = s.fold_to(l + 1);
                assert(f.path =~= s.path.take(l + 1));
                lemma_retire_size(f);
                lemma_along(f.retire(), q, l, q.len() as int);
            }
            assert(q.take(q.len() as int) =~= q);
        }
    }
}

/// The path ends with a zero.
pub proof fn lemma_path_end(keys: Seq<Seq<u8>>, n: int)
    requires
        0 < n <= keys.len(),
    ensures
        words::path_after(keys, n).len() > 0,
        words::path_after(keys, n).last() == 0,
    decreases n,
{
    let p = words::path_after(keys, n - 1);
    let q = keys[n - 1].push(0);
    words::lemma_lcp(p, q);
    if n > 1 {
        lemma_path_end(keys, n - 1);
    }
}

/// Keys whose tree is small enough leave room for all numbers.
pub proof fn law_small_fits(keys: Seq<Seq<u8>>, values: Seq<i32>)
    requires
        words::trie_size(keys, keys.len() as int) < 0x4000_0000,
    ensures
        roomy(keys, values),
{
    let n = keys.len() as int;
    assert forall|i: int| 0 <= i < n implies (#[trigger] keys[i]).len() < usize::MAX by {
        words::lemma_len_bound(keys, i);
        words::lemma_size_monotonic(keys, i + 1, n);
    }
    assert forall|i: int| 0 <= i <= n && words::sequence_error(keys, values, i) is None implies (#[trigger] after(
        keys,
        values,
        i,
    )).size() <= 0x4000_0000 by {
        lemma_after_size(keys, values, i);
        words::lemma_size_monotonic(keys, i, n);
    }
}

/// The entries of a chain, from its `i`th unit on.
pub proof fn lemma_entries_from(s: chains::UnitStore, u: u32, i: int)
    requires
        s.chains@.contains_key(u),
        s.chain_ok(u, s.len()),
        s.labels@.len() == s.len(),
        0 <= i < s.chains@[u].len,
    ensures
        entries_from(s.graph(), u + i) == s.entries(u).skip(i),
        i == 0 ==> entries_from(s.graph(), u as int) == s.entries(u),
    decreases s.chains@[u].len - i,
{
    let g = s.graph();
    let es = s.entries(u);
    assert(s.entry_ok(u, i));
    assert(g.units[u + i] == s.word(u, i));
    assert(g.labels[u + i] == s.lab(u, i));
    if i + 1 < es.len() {
        lemma_entries_from(s, u, i + 1);
        assert(seq![(g.labels[u + i], g.units[u + i])] + es.skip(i + 1) =~= es.skip(i));
    } else {
        assert(seq![(g.labels[u + i], g.units[u + i])] =~= es.skip(i));
    }
    assert(es.skip(0) =~= es);
}

/// The search for a chain with some entries goes from place to place, round the table, up to
/// the first that is empty or holds such a chain. It gives that place, and the chain if there is
/// one.
pub proof fn law_seek(t: Seq<u32>, g: Graph, es: Seq<(u8, u32)>, start: int, n: int)
    requires
        0 <= start < t.len(),
        0 <= n < t.len(),
        forall|k: int|
            #![trigger t[(start + k) % (t.len() as int)]]
            0 <= k < n ==> t[(start + k) % (t.len() as int)] != 0 && entries_from(
                g,
                t[(start + k) % (t.len() as int)] as int,
            ) != es,
        ({
            let at = t[(start + n) % (t.len() as int)];
            at == 0 || entries_from(g, at as int) == es
        }),
    ensures
        seek(t, g, es, start, 0) == ((start + n) % (t.len() as int), t[(start + n) % (t.len() as int)]),
{
    lemma_seek(t, g, es, start, n, 0);
}

proof fn lemma_seek(t: Seq<u32>, g: Graph, es: Seq<(u8, u32)>, start: int, n: int, m: int)
    requires
        0 <= start < t.len(),
        0 <= m <= n < t.len(),
        forall|k: int|
            #![trigger t[(start + k) % (t.len() as int)]]
            0 <= k < n ==> t[(start + k) % (t.len() as int)] != 0 && entries_from(
                g,
                t[(start + k) % (t.len() as int)] as int,
            ) != es,
        ({
            let at = t[(start + n) % (t.len() as int)];
            at == 0 || entries_from(g, at as int) == es
        }),
    ensures
        seek(t, g, es, start, m) == ((start + n) % (t.len() as int), t[(start + n) % (t.len() as int)]),
    decreases n - m,
{
    let len = t.len() as int;
    assert(probe_at(start, m, len) == (start + m) % len) by {
        if start + m < len {
            vstd::arithmetic::div_mod::lemma_small_mod((start + m) as nat, len as nat);
        } else {
            vstd::arithmetic::div_mod::lemma_mod_sub_multiples_vanish(start + m, len);
            vstd::arithmetic::div_mod::lemma_small_mod((start + m - len) as nat, len as nat);
        }
    }
    if m < n {
        assert(t[(start + m) % len] != 0);
        lemma_seek(t, g, es, start, n, m + 1);
    }
}

} // verus!
