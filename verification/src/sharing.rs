//! What the word graph of a build shares.

use vstd::prelude::*;
use crate::chains;
use crate::chains::Graph;
use crate::nodes;
use crate::nodes::DawgNode;
use crate::sketch;
use crate::sketch::Sketch;
use crate::words;

verus! {

/// Whether a chain begins with the unit `u`.
pub open spec fn head(g: Graph, u: int) -> bool {
    1 <= u < g.units.len() && (g.labels[u] == 0 || (g.units[u] / 2) % 2 == 1)
}

/// Whether the unit `u` is a chain of its own.
pub open spec fn single(g: Graph, u: int) -> bool {
    head(g, u) && g.units[u] % 2 == 0
}

/// No two units that are chains of their own are the same.
pub open spec fn shared(g: Graph) -> bool {
    forall|u: int, v: int|
        #[trigger] single(g, u) && #[trigger] single(g, v) && g.labels[u] == g.labels[v] && g.units[u] == g.units[v]
            ==> u == v
}

/// The number of chains among the units below `n`.
spec fn heads(g: Graph, n: int) -> nat
    decreases n,
{
    if n <= 1 {
        0
    } else {
        heads(g, n - 1) + (if head(g, n - 1) {
            1nat
        } else {
            0
        })
    }
}

/// The number of places that are not empty.
spec fn filled(t: Seq<u32>) -> nat
    decreases t.len(),
{
    if t.len() == 0 {
        0
    } else {
        filled(t.drop_last()) + (if t.last() != 0 {
            1nat
        } else {
            0
        })
    }
}

proof fn lemma_filled_update(t: Seq<u32>, h: int, u: u32)
    requires
        0 <= h < t.len(),
    ensures
        filled(t.update(h, u)) <= filled(t) + 1,
    decreases t.len(),
{
    let s = t.update(h, u);
    if h == t.len() - 1 {
        assert(s.drop_last() =~= t.drop_last());
    } else {
        assert(s.drop_last() =~= t.drop_last().update(h, u));
        lemma_filled_update(t.drop_last(), h, u);
    }
}

proof fn lemma_filled_new(n: nat)
    ensures
        filled(Seq::new(n, |i: int| 0u32)) == 0,
    decreases n,
{
    let t = Seq::new(n, |i: int| 0u32);
    if n > 0 {
        lemma_filled_new((n - 1) as nat);
        assert(t.drop_last() =~= Seq::new((n - 1) as nat, |i: int| 0u32));
    }
}

/// A table that is not full has an empty place.
proof fn lemma_empty_place(t: Seq<u32>) -> (i: int)
    requires
        filled(t) < t.len(),
    ensures
        0 <= i < t.len(),
        t[i] == 0,
    decreases t.len(),
{
    if t.last() == 0 {
        t.len() - 1
    } else {
        lemma_empty_place(t.drop_last())
    }
}

/// Whether the unit `u` is found from `start` on before an empty place is.
spec fn reached(t: Seq<u32>, start: int, u: u32) -> bool {
    exists|n: int| #[trigger] reached_at(t, start, u, n)
}

spec fn reached_at(t: Seq<u32>, start: int, u: u32, n: int) -> bool {
    &&& 0 <= n < t.len()
    &&& t[sketch::probe_at(start, n, t.len() as int)] == u
    &&& busy(t, start, n)
}

/// The first `n` places from `start` on are not empty.
spec fn busy(t: Seq<u32>, start: int, n: int) -> bool {
    forall|k: int| 0 <= k < n ==> t[#[trigger] sketch::probe_at(start, k, t.len() as int)] != 0
}

/// Where the chain `u` is looked for first.
spec fn start_of(g: Graph, u: int, len: nat) -> int {
    chains::entries_hash(sketch::entries_from(g, u)) as int % len as int
}

/// The table is not fuller than there are chains, and the chains of one unit are found in it.
spec fn table_ok(g: Graph, t: Seq<u32>, n: int) -> bool {
    &&& t.len() > 0
    &&& filled(t) <= heads(g, n)
    &&& forall|u: int| #[trigger] single(g, u) && u < n ==> reached(t, start_of(g, u, t.len()), u as u32)
}

/// A place that is filled hides nothing.
proof fn lemma_reached_update(t: Seq<u32>, h: int, w: u32, start: int, u: u32)
    requires
        0 <= h < t.len(),
        0 <= start < t.len(),
        t[h] == 0,
        w != 0,
        u != 0,
        reached(t, start, u),
    ensures
        reached(t.update(h, w), start, u),
{
    let n = choose|n: int| #[trigger] reached_at(t, start, u, n);
    assert(reached_at(t.update(h, w), start, u, n));
}

/// An empty place, as it is met from `start` on.
proof fn lemma_met(t: Seq<u32>, start: int) -> (k: int)
    requires
        0 <= start < t.len(),
        filled(t) < t.len(),
    ensures
        0 <= k < t.len(),
        t[sketch::probe_at(start, k, t.len() as int)] == 0,
{
    let i = lemma_empty_place(t);
    if i >= start {
        i - start
    } else {
        i - start + t.len()
    }
}

/// Where a new chain goes while a table is filled.
proof fn lemma_probe(t: Seq<u32>, start: int, n: int, k: int) -> (m: int)
    requires
        0 <= start < t.len(),
        0 <= n <= k < t.len(),
        busy(t, start, n),
        t[sketch::probe_at(start, k, t.len() as int)] == 0,
    ensures
        n <= m <= k,
        busy(t, start, m),
        sketch::probe(t, start, n) == sketch::probe_at(start, m, t.len() as int),
        t[sketch::probe_at(start, m, t.len() as int)] == 0,
    decreases k - n,
{
    if t[sketch::probe_at(start, n, t.len() as int)] == 0 {
        n
    } else {
        lemma_probe(t, start, n + 1, k)
    }
}

proof fn lemma_rehash(g: Graph, len: nat, n: int)
    requires
        0 <= n <= g.units.len() <= u32::MAX,
        heads(g, n) < len,
    ensures
        sketch::rehash(g, len, n).len() == len,
        table_ok(g, sketch::rehash(g, len, n), n),
    decreases n,
{
    let r = sketch::rehash(g, len, n);
    if n <= 1 {
        lemma_filled_new(len);
    } else {
        lemma_rehash(g, len, n - 1);
        let t = sketch::rehash(g, len, n - 1);
        let u = (n - 1) as u32;
        chains::law_chain_unit(g.units[n - 1]);
        if head(g, n - 1) {
            let start = start_of(g, n - 1, len);
            let k = lemma_met(t, start);
            let m = lemma_probe(t, start, 0, k);
            let h = sketch::probe_at(start, m, len as int);
            assert(r == t.update(h, u));
            lemma_filled_update(t, h, u);
            assert forall|v: int| #[trigger] single(g, v) && v < n implies reached(r, start_of(g, v, len), v as u32) by {
                if v == n - 1 {
                    assert(reached_at(r, start, u, m));
                } else {
                    lemma_reached_update(t, h, u, start_of(g, v, len), v as u32);
                }
            }
        }
    }
}

/// What a search finds: the first place that is empty or holds a chain with the entries.
proof fn lemma_seek(t: Seq<u32>, g: Graph, es: Seq<(u8, u32)>, start: int, n: int, k: int) -> (m: int)
    requires
        0 <= start < t.len(),
        0 <= n <= k < t.len(),
        busy(t, start, n),
        forall|x: int|
            0 <= x < n ==> sketch::entries_from(
                g,
                t[#[trigger] sketch::probe_at(start, x, t.len() as int)] as int,
            ) != es,
        t[sketch::probe_at(start, k, t.len() as int)] == 0,
    ensures
        n <= m <= k,
        busy(t, start, m),
        forall|x: int|
            0 <= x < m ==> sketch::entries_from(
                g,
                t[#[trigger] sketch::probe_at(start, x, t.len() as int)] as int,
            ) != es,
        ({
            let h = sketch::probe_at(start, m, t.len() as int);
            &&& sketch::seek(t, g, es, start, n) == (h, t[h])
            &&& t[h] == 0 || sketch::entries_from(g, t[h] as int) == es
        }),
    decreases k - n,
{
    let h = sketch::probe_at(start, n, t.len() as int);
    if t[h] == 0 || sketch::entries_from(g, t[h] as int) == es {
        n
    } else {
        lemma_seek(t, g, es, start, n + 1, k)
    }
}

/// Labels from the largest to the smallest.
spec fn descending(list: Seq<(u8, u32)>) -> bool {
    forall|i: int, j: int| 0 <= i < j < list.len() ==> (#[trigger] list[i]).0 > (#[trigger] list[j]).0
}

/// The children that are done are in order, and come before the one that is on the path.
spec fn lists_ok(s: Sketch) -> bool {
    &&& s.pending.len() == s.path.len() + 1
    &&& forall|d: int| 0 <= d < s.pending.len() ==> descending(#[trigger] s.pending[d])
    &&& forall|d: int, j: int|
        0 <= d < s.path.len() && 0 <= j < s.pending[d].len() ==> (#[trigger] s.pending[d][j]).0 < s.path[d]
}

/// The graph has only whole chains, its table is in order, and its chains of one unit differ.
spec fn sound(s: Sketch) -> bool {
    let g = s.graph;
    &&& 1 <= g.units.len() <= 0x4000_0000
    &&& g.labels.len() == g.units.len()
    &&& g.units.last() % 2 == 0
    &&& table_ok(g, s.table, g.units.len() as int)
    &&& s.states == 1 + heads(g, g.units.len() as int)
    &&& s.table.len() >= 4
    &&& s.states <= s.table.len() - s.table.len() / 4
    &&& shared(g)
}

/// The table that is searched is in order, and has room for one more.
proof fn lemma_roomy(s: Sketch)
    requires
        sound(s),
    ensures
        table_ok(s.graph, s.roomy(), s.graph.units.len() as int),
        s.roomy().len() >= 4,
        s.states < s.roomy().len() - s.roomy().len() / 4,
{
    if s.states >= s.table.len() - s.table.len() / 4 {
        lemma_rehash(s.graph, 2 * s.table.len(), s.graph.units.len() as int);
    }
}

/// A chain of one unit has one entry.
proof fn lemma_one_entry(g: Graph, u: int)
    requires
        0 <= u < g.units.len(),
        g.units[u] % 2 == 0,
    ensures
        sketch::entries_from(g, u) == seq![(g.labels[u], g.units[u])],
{
    chains::law_chain_unit(g.units[u]);
}

/// The chains that are there stay when one is added.
proof fn lemma_heads_same(g: Graph, h: Graph, n: int)
    requires
        0 <= n <= g.units.len() <= h.units.len(),
        forall|u: int| 0 <= u < g.units.len() ==> #[trigger] h.units[u] == g.units[u],
        forall|u: int| 0 <= u < g.units.len() ==> #[trigger] h.labels[u] == g.labels[u],
    ensures
        heads(h, n) == heads(g, n),
    decreases n,
{
    if n > 1 {
        lemma_heads_same(g, h, n - 1);
        assert(h.units[n - 1] == g.units[n - 1]);
    }
}

/// What the units of a new chain are.
proof fn lemma_new_chain(list: Seq<(u8, u32)>, j: int)
    requires
        0 <= j < list.len(),
    ensures
        ({
            let e = sketch::entries_of(list)[j];
            &&& e.0 == list[j].0
            &&& e.1 % 2 == (if j > 0 {
                1int
            } else {
                0
            })
            &&& list[j].0 != 0 ==> (e.1 / 2) % 2 == (if j + 1 == list.len() {
                1int
            } else {
                0
            })
        }),
{
    let node = DawgNode {
        child: list[j].1,
        sibling: 0,
        label: list[j].0,
        is_state: j + 1 == list.len(),
        has_sibling: j > 0,
    };
    let w = nodes::node_unit(node);
    nodes::lemma_node_unit(node);
    chains::law_chain_unit(w);
}

/// One chain more.
proof fn lemma_heads_appended(g: Graph, list: Seq<(u8, u32)>, n: int)
    requires
        1 <= g.units.len(),
        g.labels.len() == g.units.len(),
        descending(list),
        1 <= n <= list.len(),
    ensures
        ({
            let h = sketch::appended(g, sketch::entries_of(list));
            let first = g.units.len() as int;
            &&& heads(h, first + n) == heads(g, first) + 1
            &&& head(h, first)
            &&& single(h, first) <==> list.len() == 1
            &&& forall|i: int| 0 < i < list.len() ==> !head(h, #[trigger] (first + i))
        }),
    decreases n,
{
    let es = sketch::entries_of(list);
    let h = sketch::appended(g, es);
    let first = g.units.len() as int;
    let m = list.len() as int;
    lemma_heads_same(g, h, first);
    assert(h.units[first] == es[m - 1].1);
    assert(h.labels[first] == es[m - 1].0);
    lemma_new_chain(list, m - 1);
    assert forall|i: int| 0 < i < m implies !head(h, #[trigger] (first + i)) by {
        lemma_new_chain(list, m - 1 - i);
        assert(h.units[first + i] == es[m - 1 - i].1);
        assert(h.labels[first + i] == es[m - 1 - i].0);
        assert(list[m - 1 - i].0 > list[m - 1].0);
    }
    if n > 1 {
        lemma_heads_appended(g, list, n - 1);
        assert(!head(h, first + (n - 1)));
    } else {
        assert(heads(h, first + 1) == heads(h, first) + 1);
    }
}

#[verifier::rlimit(30)]
proof fn lemma_settle(s: Sketch)
    requires
        sound(s),
        lists_ok(s),
        s.pending.last().len() > 0,
        s.graph.units.len() + s.pending.last().len() <= 0x4000_0000,
    ensures
        sound(s.settle()),
        lists_ok(s.settle()),
{
    let g = s.graph;
    let t = s.roomy();
    let list = s.pending.last();
    let es = sketch::entries_of(list);
    let len = t.len() as int;
    let start = chains::entries_hash(es) as int % len;
    let r = s.settle();
    let first = g.units.len() as int;
    lemma_roomy(s);
    assert(descending(s.pending[s.pending.len() - 1]));
    assert forall|d: int| 0 <= d < r.pending.len() implies descending(#[trigger] r.pending[d]) by {
        if d < s.pending.len() - 1 {
            assert(r.pending[d] == s.pending[d]);
        }
    }
    assert forall|d: int, j: int|
        0 <= d < r.path.len() && 0 <= j < r.pending[d].len() implies (#[trigger] r.pending[d][j]).0 < r.path[d] by {
        assert(r.pending[d] == s.pending[d]);
        assert(s.pending[d][j].0 < s.path[d]);
    }
    let k = lemma_met(t, start);
    let m = lemma_seek(t, g, es, start, 0, k);
    let h = sketch::probe_at(start, m, len);
    if t[h] != 0 {
        let n = r.graph;
        assert(n.units == g.units && n.labels == g.labels);
        lemma_heads_same(g, n, first);
        assert forall|u: int| #[trigger] single(n, u) && u < first implies reached(
            t,
            start_of(n, u, t.len()),
            u as u32,
        ) by {
            assert(single(g, u));
            lemma_one_entry(g, u);
            lemma_one_entry(n, u);
        }
        assert(shared(n)) by {
            assert forall|u: int, v: int|
                #[trigger] single(n, u) && #[trigger] single(n, v) && n.labels[u] == n.labels[v] && n.units[u]
                    == n.units[v] implies u == v by {
                assert(single(g, u) && single(g, v));
            }
        }
    } else {
        let n = sketch::appended(g, es);
        assert(r.graph == n);
        assert(r.table == t.update(h, first as u32));
        lemma_heads_appended(g, list, list.len() as int);
        lemma_filled_update(t, h, first as u32);
        lemma_new_chain(list, 0);
        assert(n.units.last() == es[0].1);
        assert forall|u: int| 0 <= u < first implies #[trigger] n.units[u] == g.units[u] && n.labels[u]
            == g.labels[u] by {}
        // no chain that is there has the entry of a new chain of one unit
        assert forall|u: int| #[trigger] single(g, u) implies sketch::entries_from(g, u) != es by {
            if sketch::entries_from(g, u) == es {
                assert(reached(t, start_of(g, u, t.len()), u as u32));
                let x = choose|x: int| #[trigger] reached_at(t, start, u as u32, x);
                if m < x {
                    assert(t[sketch::probe_at(start, m, len)] != 0);
                } else if x < m {
                    assert(sketch::entries_from(g, t[sketch::probe_at(start, x, len)] as int) != es);
                }
            }
        }
        assert forall|u: int| #[trigger] single(n, u) && u < n.units.len() implies reached(
            r.table,
            start_of(n, u, t.len()),
            u as u32,
        ) && (u == first || single(g, u)) by {
            if u < first {
                assert(n.units[u] == g.units[u]);
                assert(single(g, u));
                lemma_one_entry(g, u);
                lemma_one_entry(n, u);
                lemma_reached_update(t, h, first as u32, start_of(g, u, t.len()), u as u32);
            } else {
                assert(!(0 < u - first) || !head(n, first + (u - first)));
                assert(u == first);
                assert(list.len() == 1);
                lemma_one_entry(n, first);
                assert(sketch::entries_from(n, first) =~= es);
                assert(reached_at(r.table, start, first as u32, m));
            }
        }
        assert(shared(n)) by {
            assert forall|u: int, v: int|
                #[trigger] single(n, u) && #[trigger] single(n, v) && n.labels[u] == n.labels[v] && n.units[u]
                    == n.units[v] implies u == v by {
                lemma_one_entry(n, u);
                lemma_one_entry(n, v);
                if u == first && v != first {
                    assert(single(g, v));
                    lemma_one_entry(g, v);
                    assert(sketch::entries_from(n, first) =~= es);
                } else if v == first && u != first {
                    assert(single(g, u));
                    lemma_one_entry(g, u);
                    assert(sketch::entries_from(n, first) =~= es);
                } else if u != first {
                    assert(single(g, u) && single(g, v));
                    assert(n.units[u] == g.units[u] && n.units[v] == g.units[v]);
                }
            }
        }
    }
}

proof fn lemma_retire(s: Sketch)
    requires
        sound(s),
        lists_ok(s),
        s.path.len() > 0,
    ensures
        sound(s.retire()),
        lists_ok(s.retire()),
        s.retire().pending.last().len() > 0,
        s.retire().graph == s.graph,
{
    let r = s.retire();
    let d = s.path.len() - 1;
    assert(r.pending[d] == seq![(s.path[d], s.tip)] + s.pending[d]);
    assert forall|x: int| 0 <= x < r.pending.len() implies descending(#[trigger] r.pending[x]) by {
        assert(descending(s.pending[x]));
        if x == d {
            assert forall|i: int, j: int| 0 <= i < j < r.pending[d].len() implies (#[trigger] r.pending[d][i]).0 > (
            #[trigger] r.pending[d][j]).0 by {
                assert(r.pending[d][j] == s.pending[d][j - 1]);
                if i > 0 {
                    assert(r.pending[d][i] == s.pending[d][i - 1]);
                } else {
                    assert(s.pending[d][j - 1].0 < s.path[d]);
                }
            }
        }
    }
    assert forall|x: int, j: int|
        0 <= x < r.path.len() && 0 <= j < r.pending[x].len() implies (#[trigger] r.pending[x][j]).0 < r.path[x] by {
        assert(r.pending[x] == s.pending[x]);
        assert(s.pending[x][j].0 < s.path[x]);
    }
}

proof fn lemma_fold(s: Sketch, t: int)
    requires
        sound(s),
        lists_ok(s),
        0 <= t,
        s.pending.last().len() == 0,
        s.size() <= 0x4000_0000,
    ensures
        sound(s.fold_to(t)),
        lists_ok(s.fold_to(t)),
    decreases s.path.len(),
{
    if s.path.len() > t {
        lemma_retire(s);
        sketch::lemma_retire_size(s);
        let r = s.retire();
        sketch::lemma_settle_size(r);
        assert(sketch::count(r.pending) >= r.pending.last().len());
        lemma_settle(r);
        lemma_fold(r.settle(), t);
    }
}

#[verifier::rlimit(30)]
proof fn lemma_after(keys: Seq<Seq<u8>>, values: Seq<i32>, n: int)
    requires
        0 <= n <= keys.len(),
        words::sequence_error(keys, values, n) is None,
        sketch::roomy(keys, values),
    ensures
        sound(sketch::after(keys, values, n)),
        lists_ok(sketch::after(keys, values, n)),
    decreases n,
{
    let r = sketch::after(keys, values, n);
    if n == 0 {
        lemma_filled_new(1024);
        assert(r.pending[0].len() == 0);
    } else {
        lemma_after(keys, values, n - 1);
        sketch::lemma_after_size(keys, values, n - 1);
        let s = sketch::after(keys, values, n - 1);
        let key = keys[n - 1];
        let q = key.push(0);
        let l = words::lcp(s.path, q) as int;
        words::lemma_lcp(s.path, q);
        assert(s.size() <= 0x4000_0000);
        if l < q.len() {
            let start = if s.path.len() == 0 {
                s
            } else {
                s.fold_to(l + 1).retire()
            };
            if s.path.len() > 0 {
                if l == s.path.len() {
                    words::lemma_path_after(keys, n - 1);
                    sketch::lemma_path_end(keys, n - 1);
                    // the path ends with a zero, which the key would have too
                    assert(s.path[l - 1] == q[l - 1]);
                    assert(key[l - 1] == 0);
                }
                lemma_fold(s, l + 1);
                sketch::lemma_fold_size(s, l + 1);
                let f = s.fold_to(l + 1);
                assert(f.path =~= s.path.take(l + 1));
                lemma_retire(f);
                assert(start.pending[l] == seq![(f.path[l], f.tip)] + f.pending[l]);
                assert forall|j: int| 0 <= j < start.pending[l].len() implies (#[trigger] start.pending[l][j]).0
                    < q[l] by {
                    if j > 0 {
                        assert(start.pending[l][j] == f.pending[l][j - 1]);
                        assert(f.pending[l][j - 1].0 < f.path[l]);
                    }
                    assert(f.path[l] == s.path[l]);
                }
                assert(start.path =~= q.take(l)) by {
                    assert forall|i: int| 0 <= i < l implies start.path[i] == q[i] by {
                        assert(s.path[i] == q[i]);
                    }
                }
            } else {
                assert(start.path =~= q.take(l));
            }
            assert(r.pending == start.pending + Seq::new((q.len() - l) as nat, |i: int| Seq::<(u8, u32)>::empty()));
            assert(r.path =~= q);
            assert(sound(r));
            assert forall|d: int| 0 <= d < r.pending.len() implies descending(#[trigger] r.pending[d]) by {
                if d <= l {
                    assert(r.pending[d] == start.pending[d]);
                }
            }
            assert forall|d: int, j: int|
                0 <= d < r.path.len() && 0 <= j < r.pending[d].len() implies (#[trigger] r.pending[d][j]).0
                < r.path[d] by {
                if d <= l {
                    assert(r.pending[d] == start.pending[d]);
                    if d < l {
                        assert(start.pending[d][j].0 < start.path[d]);
                    }
                }
            }
        }
    }
}

/// In the word graph of keys that can be inserted no unit that is a chain of its own is there
/// twice: nodes from which a single byte leads on to the same chain, or to the same value, are
/// one.
pub proof fn law_shared(keys: Seq<Seq<u8>>, values: Seq<i32>, u: int, v: int)
    requires
        words::sequence_error(keys, values, keys.len() as int) is None,
        sketch::roomy(keys, values),
        single(sketch::graph_of(keys, values), u),
        single(sketch::graph_of(keys, values), v),
        sketch::graph_of(keys, values).labels[u] == sketch::graph_of(keys, values).labels[v],
        sketch::graph_of(keys, values).units[u] == sketch::graph_of(keys, values).units[v],
    ensures
        u == v,
{
    let n = keys.len() as int;
    let s = sketch::after(keys, values, n);
    lemma_after(keys, values, n);
    sketch::lemma_after_size(keys, values, n);
    lemma_fold(s, 0);
    let g = s.fold_to(0).graph;
    let f = sketch::graph_of(keys, values);
    assert(f.units[u] == g.units[u] && f.labels[u] == g.labels[u]);
    assert(f.units[v] == g.units[v] && f.labels[v] == g.labels[v]);
    assert(single(g, u) && single(g, v));
}

} // verus!
