//! Which chains of a word graph are marked as reached twice.

use vstd::prelude::*;
use crate::chains;
use crate::chains::Graph;
use crate::nodes;
use crate::nodes::DawgNode;
use crate::sketch;
use crate::sketch::Sketch;
use crate::words;

verus! {

/// One if it is so, and else zero.
spec fn one(b: bool) -> nat {
    if b {
        1
    } else {
        0
    }
}

/// How many of the units below `n` name the chain `v`.
spec fn in_units(g: Graph, n: int, v: u32) -> nat
    decreases n,
{
    if n <= 1 {
        0
    } else {
        in_units(g, n - 1, v) + one(g.labels[n - 1] != 0 && g.units[n - 1] / 4 == v)
    }
}

/// How many children of a list name the chain `v`.
spec fn in_list(list: Seq<(u8, u32)>, v: u32) -> nat
    decreases list.len(),
{
    if list.len() == 0 {
        0
    } else {
        one(list[0].0 != 0 && list[0].1 == v) + in_list(list.drop_first(), v)
    }
}

/// How many children of some lists name the chain `v`.
spec fn in_lists(lists: Seq<Seq<(u8, u32)>>, v: u32) -> nat
    decreases lists.len(),
{
    if lists.len() == 0 {
        0
    } else {
        in_lists(lists.drop_last(), v) + in_list(lists.last(), v)
    }
}

/// How often the chain `v` is named.
spec fn named(s: Sketch, v: u32) -> nat {
    in_units(s.graph, s.graph.units.len() as int, v) + in_lists(s.pending, v) + one(
        s.path.len() > 0 && s.path.last() != 0 && s.tip == v,
    )
}

/// Only chains that are there are named, and those that are named twice are marked.
spec fn refs_ok(s: Sketch) -> bool {
    let g = s.graph;
    &&& 1 <= g.units.len() <= 0x4000_0000
    &&& g.labels.len() == g.units.len()
    &&& g.marks.len() == g.units.len()
    &&& s.table.len() > 0
    &&& forall|i: int| 0 <= i < s.table.len() ==> #[trigger] s.table[i] < g.units.len()
    &&& s.pending.len() == s.path.len() + 1
    &&& forall|v: u32|
        v >= 1 ==> (v >= g.units.len() ==> #[trigger] named(s, v) == 0) && (v < g.units.len() && !g.marks[v as int]
            ==> named(s, v) <= 1)
}

proof fn lemma_in_list(list: Seq<(u8, u32)>, j: int)
    requires
        0 <= j < list.len(),
        list[j].0 != 0,
    ensures
        in_list(list, list[j].1) >= 1,
    decreases list.len(),
{
    if j > 0 {
        assert(list.drop_first()[j - 1] == list[j]);
        lemma_in_list(list.drop_first(), j - 1);
    }
}

proof fn lemma_in_units(g: Graph, n: int, c: int, v: u32)
    requires
        1 <= c < n,
        g.labels[c] != 0,
        g.units[c] / 4 == v,
    ensures
        in_units(g, n, v) >= 1,
    decreases n,
{
    if c < n - 1 {
        lemma_in_units(g, n - 1, c, v);
    }
}

proof fn lemma_twice(g: Graph, n: int, c: int, d: int, v: u32)
    requires
        1 <= c < d < n,
        g.labels[c] != 0,
        g.labels[d] != 0,
        g.units[c] / 4 == v,
        g.units[d] / 4 == v,
    ensures
        in_units(g, n, v) >= 2,
    decreases n,
{
    if d < n - 1 {
        lemma_twice(g, n - 1, c, d, v);
    } else {
        lemma_in_units(g, n - 1, c, v);
    }
}

proof fn lemma_top(lists: Seq<Seq<(u8, u32)>>, l: Seq<(u8, u32)>, v: u32)
    requires
        lists.len() > 0,
    ensures
        in_lists(lists.update(lists.len() - 1, l), v) + in_list(lists.last(), v) == in_lists(lists, v) + in_list(l, v),
{
    assert(lists.update(lists.len() - 1, l).drop_last() =~= lists.drop_last());
}

proof fn lemma_more(lists: Seq<Seq<(u8, u32)>>, n: nat, v: u32)
    ensures
        in_lists(lists + Seq::new(n, |i: int| Seq::<(u8, u32)>::empty()), v) == in_lists(lists, v),
    decreases n,
{
    let more = lists + Seq::new(n, |i: int| Seq::<(u8, u32)>::empty());
    if n == 0 {
        assert(more =~= lists);
    } else {
        lemma_more(lists, (n - 1) as nat, v);
        assert(more.drop_last() =~= lists + Seq::new((n - 1) as nat, |i: int| Seq::<(u8, u32)>::empty()));
    }
}

proof fn lemma_units_same(g: Graph, h: Graph, n: int, v: u32)
    requires
        0 <= n <= g.units.len() <= h.units.len(),
        forall|u: int| 0 <= u < g.units.len() ==> #[trigger] h.units[u] == g.units[u],
        forall|u: int| 0 <= u < g.units.len() ==> #[trigger] h.labels[u] == g.labels[u],
    ensures
        in_units(h, n, v) == in_units(g, n, v),
    decreases n,
{
    if n > 1 {
        lemma_units_same(g, h, n - 1, v);
    }
}

/// A new chain names what the children named.
proof fn lemma_appended(g: Graph, list: Seq<(u8, u32)>, n: int, v: u32)
    requires
        1 <= g.units.len(),
        g.labels.len() == g.units.len(),
        0 <= n <= list.len(),
        forall|j: int| 0 <= j < list.len() && (#[trigger] list[j]).0 != 0 ==> list[j].1 < 0x4000_0000,
    ensures
        in_units(sketch::appended(g, sketch::entries_of(list)), g.units.len() + n, v) == in_units(
            g,
            g.units.len() as int,
            v,
        ) + in_list(list.skip(list.len() - n), v),
    decreases n,
{
    let es = sketch::entries_of(list);
    let h = sketch::appended(g, es);
    let first = g.units.len() as int;
    let m = list.len() as int;
    if n == 0 {
        lemma_units_same(g, h, first, v);
        assert(list.skip(m) =~= Seq::<(u8, u32)>::empty());
    } else {
        lemma_appended(g, list, n - 1, v);
        let j = m - n;
        let rest = list.skip(j);
        assert(rest.drop_first() =~= list.skip(j + 1));
        assert(h.units[first + n - 1] == es[j].1);
        assert(h.labels[first + n - 1] == es[j].0);
        let node = DawgNode {
            child: list[j].1,
            sibling: 0,
            label: list[j].0,
            is_state: j + 1 == list.len(),
            has_sibling: j > 0,
        };
        nodes::lemma_node_unit(node);
        chains::law_chain_unit(nodes::node_unit(node));
        assert(es[j] == (list[j].0, nodes::node_unit(node)));
        assert(rest[0] == list[j]);
    }
}

proof fn lemma_probe_place(t: Seq<u32>, start: int, n: int)
    requires
        0 <= start < t.len(),
        0 <= n,
    ensures
        0 <= sketch::probe(t, start, n) < t.len(),
    decreases t.len() - n,
{
    if n < t.len() && t[sketch::probe_at(start, n, t.len() as int)] != 0 {
        lemma_probe_place(t, start, n + 1);
    }
}

proof fn lemma_rehash_below(g: Graph, len: nat, n: int, i: int)
    requires
        0 <= n <= g.units.len() <= u32::MAX,
        1 <= g.units.len(),
        len > 0,
        0 <= i < len,
    ensures
        sketch::rehash(g, len, n).len() == len,
        sketch::rehash(g, len, n)[i] < g.units.len(),
    decreases n,
{
    if n > 1 {
        lemma_rehash_below(g, len, n - 1, i);
        let t = sketch::rehash(g, len, n - 1);
        let start = chains::entries_hash(sketch::entries_from(g, n - 1)) as int % len as int;
        lemma_probe_place(t, start, 0);
    }
}

/// What a search finds is in the table.
proof fn lemma_seek_below(t: Seq<u32>, g: Graph, es: Seq<(u8, u32)>, start: int, n: int)
    requires
        0 <= start < t.len(),
        0 <= n,
        1 <= g.units.len(),
        forall|i: int| 0 <= i < t.len() ==> #[trigger] t[i] < g.units.len(),
    ensures
        sketch::seek(t, g, es, start, n).1 < g.units.len(),
        0 <= sketch::seek(t, g, es, start, n).0 < t.len(),
    decreases t.len() - n,
{
    if n < t.len() {
        let h = sketch::probe_at(start, n, t.len() as int);
        assert(0 <= h < t.len());
        if t[h] != 0 && sketch::entries_from(g, t[h] as int) != es {
            lemma_seek_below(t, g, es, start, n + 1);
        }
    }
}

#[verifier::rlimit(30)]
proof fn lemma_settle(s: Sketch)
    requires
        refs_ok(s),
        s.tip == 0,
        s.pending.last().len() > 0,
        s.graph.units.len() + s.pending.last().len() <= 0x4000_0000,
    ensures
        refs_ok(s.settle()),
{
    let g = s.graph;
    let t = s.roomy();
    let list = s.pending.last();
    let es = sketch::entries_of(list);
    let r = s.settle();
    let first = g.units.len() as int;
    assert(t.len() == s.table.len() || t.len() == 2 * s.table.len()) by {
        if s.states >= s.table.len() - s.table.len() / 4 {
            lemma_rehash_below(g, 2 * s.table.len(), first, 0);
        }
    }
    assert forall|i: int| 0 <= i < t.len() implies #[trigger] t[i] < first by {
        if s.states >= s.table.len() - s.table.len() / 4 {
            lemma_rehash_below(g, 2 * s.table.len(), first, i);
        }
    }
    let start = chains::entries_hash(es) as int % t.len() as int;
    lemma_seek_below(t, g, es, start, 0);
    let (h, m) = sketch::seek(t, g, es, start, 0);
    assert forall|j: int| 0 <= j < list.len() && (#[trigger] list[j]).0 != 0 implies list[j].1 < 0x4000_0000 by {
        lemma_in_list(list, j);
        let v = list[j].1;
        assert(in_lists(s.pending, v) >= in_list(list, v));
        assert(v >= 1 ==> named(s, v) >= 1);
    }
    assert forall|v: u32| v >= 1 implies (v >= r.graph.units.len() ==> #[trigger] named(r, v) == 0) && (v
        < r.graph.units.len() && !r.graph.marks[v as int] ==> named(r, v) <= 1) by {
        let on = r.path.len() > 0 && r.path.last() != 0;
        lemma_top(s.pending, Seq::empty(), v);
        assert(in_list(Seq::<(u8, u32)>::empty(), v) == 0);
        assert(in_lists(r.pending, v) + in_list(list, v) == in_lists(s.pending, v));
        if m != 0 {
            lemma_units_same(g, r.graph, first, v);
            assert(named(r, v) <= named(s, v) + one(on && m == v));
            if v == m {
                assert(r.graph.marks[v as int]);
            } else if v < first {
                assert(r.graph.marks[v as int] == g.marks[v as int]);
            }
        } else {
            lemma_appended(g, list, list.len() as int, v);
            assert(list.skip(0) =~= list);
            assert(named(r, v) == named(s, v) + one(on && first == v));
            if v < first {
                assert(r.graph.marks[v as int] == g.marks[v as int]);
            }
        }
    }
}

proof fn lemma_retire(s: Sketch)
    requires
        refs_ok(s),
        s.path.len() > 0,
        s.pending.last().len() == 0,
    ensures
        refs_ok(s.retire()),
        s.retire().tip == 0,
        s.retire().pending.last().len() > 0,
        s.retire().graph == s.graph,
{
    let r = s.retire();
    let d = s.path.len() - 1;
    let lists = s.pending.drop_last();
    let more = seq![(s.path[d], s.tip)] + s.pending[d];
    assert forall|v: u32| v >= 1 implies (v >= r.graph.units.len() ==> #[trigger] named(r, v) == 0) && (v
        < r.graph.units.len() && !r.graph.marks[v as int] ==> named(r, v) <= 1) by {
        lemma_top(lists, more, v);
        assert(more.drop_first() =~= s.pending[d]);
        assert(in_list(s.pending.last(), v) == 0);
        assert(named(r, v) == named(s, v));
    }
}

proof fn lemma_fold(s: Sketch, t: int)
    requires
        refs_ok(s),
        0 <= t,
        s.pending.last().len() == 0,
        s.size() <= 0x4000_0000,
    ensures
        refs_ok(s.fold_to(t)),
    decreases s.path.len(),
{
    if s.path.len() > t {
        lemma_retire(s);
        sketch::lemma_retire_size(s);
        let r = s.retire();
        sketch::lemma_settle_size(r);
        assert(sketch::count(r.pending) >= r.pending.last().len());
        lemma_settle(r);
        lemma_fold(r.settle(), t);
    }
}

#[verifier::rlimit(30)]
proof fn lemma_after(keys: Seq<Seq<u8>>, values: Seq<i32>, n: int)
    requires
        0 <= n <= keys.len(),
        words::sequence_error(keys, values, n) is None,
        sketch::roomy(keys, values),
    ensures
        refs_ok(sketch::after(keys, values, n)),
    decreases n,
{
    let r = sketch::after(keys, values, n);
    if n == 0 {
        assert forall|v: u32| v >= 1 implies #[trigger] named(r, v) == 0 by {
            assert(r.pending.drop_last() =~= Seq::empty());
            assert(in_list(r.pending.last(), v) == 0);
            assert(in_lists(r.pending.drop_last(), v) == 0);
        }
    } else {
        lemma_after(keys, values, n - 1);
        sketch::lemma_after_size(keys, values, n - 1);
        let s = sketch::after(keys, values, n - 1);
        let key = keys[n - 1];
        let q = key.push(0);
        let l = words::lcp(s.path, q) as int;
        words::lemma_lcp(s.path, q);
        assert(s.size() <= 0x4000_0000);
        if l < q.len() {
            let start = if s.path.len() == 0 {
                s
            } else {
                s.fold_to(l + 1).retire()
            };
            if s.path.len() > 0 {
                if l == s.path.len() {
                    words::lemma_path_after(keys, n - 1);
                    sketch::lemma_path_end(keys, n - 1);
                    // the path ends with a zero, which the key would have too
                    assert(s.path[l - 1] == q[l - 1]);
                    assert(key[l - 1] == 0);
                }
                lemma_fold(s, l + 1);
                sketch::lemma_fold_size(s, l + 1);
                lemma_retire(s.fold_to(l + 1));
            }
            assert(r.path =~= q);
            assert forall|v: u32| v >= 1 implies (v >= r.graph.units.len() ==> #[trigger] named(r, v) == 0) && (v
                < r.graph.units.len() && !r.graph.marks[v as int] ==> named(r, v) <= 1) by {
                lemma_more(start.pending, (q.len() - l) as nat, v);
                assert(named(start, v) >= named(r, v));
            }
        }
    }
}

/// In the word graph of keys that can be inserted, a chain that two units name is marked.
pub proof fn law_marked(keys: Seq<Seq<u8>>, values: Seq<i32>, c: int, d: int, v: int)
    requires
        words::sequence_error(keys, values, keys.len() as int) is None,
        sketch::roomy(keys, values),
        1 <= c < d < sketch::graph_of(keys, values).units.len(),
        sketch::graph_of(keys, values).labels[c] != 0,
        sketch::graph_of(keys, values).labels[d] != 0,
        sketch::graph_of(keys, values).units[c] / 4 == v,
        sketch::graph_of(keys, values).units[d] / 4 == v,
        v >= 1,
    ensures
        v < sketch::graph_of(keys, values).units.len(),
        sketch::graph_of(keys, values).marks[v],
{
    let n = keys.len() as int;
    let s = sketch::after(keys, values, n);
    lemma_after(keys, values, n);
    sketch::lemma_after_size(keys, values, n);
    lemma_fold(s, 0);
    let t = s.fold_to(0);
    let g = t.graph;
    let f = sketch::graph_of(keys, values);
    assert(f.units[c] == g.units[c] && f.labels[c] == g.labels[c]);
    assert(f.units[d] == g.units[d] && f.labels[d] == g.labels[d]);
    lemma_twice(g, g.units.len() as int, c, d, v as u32);
    assert(named(t, v as u32) >= 2);
}

} // verus!
