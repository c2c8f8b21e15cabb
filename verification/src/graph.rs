//! Where a word graph goes in a double array.

use vstd::prelude::*;
use crate::bits;
use crate::chains;
use crate::chains::Graph;
use crate::plan;
use crate::plan::Plan;
use crate::slots;
use crate::unit;

verus! {

/// The labels of the chain from `u` on.
pub open spec fn labels_from(g: Graph, u: int) -> Seq<u8>
    decreases g.units.len() - u,
{
    if u >= g.units.len() {
        Seq::empty()
    } else if chains::unit_sibling(g.units[u]) {
        seq![g.labels[u]] + labels_from(g, u + 1)
    } else {
        seq![g.labels[u]]
    }
}

/// The value of the leaf that the chain `u` gets, if it gets one.
pub open spec fn leaf_value(g: Graph, u: int) -> i32 {
    if g.labels[u] == 0 {
        chains::unit_value(g.units[u])
    } else {
        (-1) as i32
    }
}

/// The place of the chain `u` among those that are reached twice.
pub open spec fn rank(g: Graph, u: int) -> int {
    bits::ones(g.marks.take(u)) as int
}

/// The base that the chain `u` has already, if it is reached twice; zero if it has none.
pub open spec fn known_base(g: Graph, bases: Seq<u32>, u: int) -> u32 {
    if g.marks[u] {
        bases[rank(g, u)]
    } else {
        0
    }
}

/// The known bases once the chain `u` has the base `b`.
pub open spec fn with_base(g: Graph, bases: Seq<u32>, u: int, b: u32) -> Seq<u32> {
    if g.marks[u] {
        bases.update(rank(g, u), b)
    } else {
        bases
    }
}

/// Where the chain `u` and all below it go, below the node `id`, with the bases that are then
/// known; nothing if there is no place for them. A chain that is reached again is shared where
/// the node can hold the distance to its base.
#[verifier::opaque]
pub open spec fn chain_plan(p: Plan, bases: Seq<u32>, g: Graph, u: int, id: u32) -> Option<(Plan, Seq<u32>)>
    decreases u, 1int, 0int,
{
    let known = known_base(g, bases, u);
    if known != 0 && slots::near(id, known) {
        Some((p.share(id, known, g.labels[u] == 0), bases))
    } else {
        match p.arrange(id, labels_from(g, u), leaf_value(g, u)) {
            Some((q, b)) => units_plan(q, with_base(g, bases, u, b), g, u, u, b),
            None => None,
        }
    }
}

/// Where the chains go that the units of the chain `u` name, from the unit `c` on.
#[verifier::opaque]
pub open spec fn units_plan(p: Plan, bases: Seq<u32>, g: Graph, u: int, c: int, b: u32) -> Option<
    (Plan, Seq<u32>),
>
    decreases u, 0int, g.units.len() - c,
{
    if c >= g.units.len() {
        Some((p, bases))
    } else {
        match unit_plan(p, bases, g, u, c, b) {
            Some((q, known)) => if chains::unit_sibling(g.units[c]) {
                units_plan(q, known, g, u, c + 1, b)
            } else {
                Some((q, known))
            },
            None => None,
        }
    }
}

/// Where the chain goes that the unit `c` of the chain `u` names.
#[verifier::opaque]
pub open spec fn unit_plan(p: Plan, bases: Seq<u32>, g: Graph, u: int, c: int, b: u32) -> Option<(Plan, Seq<u32>)>
    decreases u, 0int, 0int,
{
    let v = chains::unit_child(g.units[c]) as int;
    if g.labels[c] == 0 || v >= u {
        Some((p, bases))
    } else {
        chain_plan(p, bases, g, v, unit::slot(b, g.labels[c]))
    }
}

/// The double array of a word graph; nothing if it would have more units than a unit can
/// reach.
pub open spec fn layout(g: Graph) -> Option<Seq<u32>> {
    let root = chains::unit_child(g.units[0]) as int;
    if root == 0 {
        Some(plan::finished(plan::planted()))
    } else {
        match chain_plan(plan::planted(), Seq::new(bits::ones(g.marks), |i: int| 0u32), g, root, 0) {
            Some((p, _)) => Some(plan::finished(p)),
            None => None,
        }
    }
}

/// A chain is shared, or its units get a base.
pub proof fn lemma_chain_plan(p: Plan, bases: Seq<u32>, g: Graph, u: int, id: u32)
    ensures
        ({
            let known = known_base(g, bases, u);
            chain_plan(p, bases, g, u, id) == (if known != 0 && slots::near(id, known) {
                Some((p.share(id, known, g.labels[u] == 0), bases))
            } else {
                match p.arrange(id, labels_from(g, u), leaf_value(g, u)) {
                    Some((q, b)) => units_plan(q, with_base(g, bases, u, b), g, u, u, b),
                    None => None,
                }
            })
        }),
{
    reveal(chain_plan);
    reveal(units_plan);
    reveal(unit_plan);
}

/// The unit `c` of a chain, and then the rest.
pub proof fn lemma_units_plan(p: Plan, bases: Seq<u32>, g: Graph, u: int, c: int, b: u32)
    requires
        0 <= c < g.units.len(),
        g.labels[c] != 0 ==> chains::unit_child(g.units[c]) < u,
    ensures
        units_plan(p, bases, g, u, c, b) == match (if g.labels[c] == 0 {
            Some((p, bases))
        } else {
            chain_plan(p, bases, g, chains::unit_child(g.units[c]) as int, unit::slot(b, g.labels[c]))
        }) {
            Some((q, known)) => if chains::unit_sibling(g.units[c]) {
                units_plan(q, known, g, u, c + 1, b)
            } else {
                Some((q, known))
            },
            None => None,
        },
{
    reveal_with_fuel(chain_plan, 2);
    reveal_with_fuel(units_plan, 2);
    reveal_with_fuel(unit_plan, 2);
}

/// The labels of a chain, from its `i`th unit on.
pub proof fn lemma_labels_from(s: chains::UnitStore, u: u32, i: int)
    requires
        s.chains@.contains_key(u),
        s.chain_ok(u, s.len()),
        s.labels@.len() == s.len(),
        0 <= i < s.chains@[u].len,
    ensures
        labels_from(s.graph(), u + i) == s.chain_labels(u).skip(i),
    decreases s.chains@[u].len - i,
{
    let g = s.graph();
    let ls = s.chain_labels(u);
    assert(s.entry_ok(u, i));
    assert(g.units[u + i] == s.word(u, i));
    assert(g.labels[u + i] == s.lab(u, i));
    if i + 1 < ls.len() {
        lemma_labels_from(s, u, i + 1);
        assert(seq![g.labels[u + i]] + ls.skip(i + 1) =~= ls.skip(i));
    } else {
        assert(seq![g.labels[u + i]] =~= ls.skip(i));
    }
}

/// A chain that is reached again is not placed again, if the node that reaches it can hold the
/// distance to the base that the chain has: that node leads to the same base, and nothing else
/// changes.
pub proof fn law_shared(p: Plan, bases: Seq<u32>, g: Graph, u: int, id: u32, b: u32)
    requires
        0 <= u < g.marks.len(),
        g.marks[u],
        bases[bits::ones(g.marks.take(u)) as int] == b,
        0 < b < 0x2000_0000,
        id < 0x2000_0000,
        id < p.units.len(),
        !unit::is_leaf_unit(p.units[id as int]),
        (id ^ b) % 256 == 0 || ((id ^ b) / 0x20_0000) % 256 == 0,
    ensures
        chain_plan(p, bases, g, u, id) matches Some((q, known)) && {
            &&& known == bases
            &&& q.taken == p.taken
            &&& q.bases == p.bases
            &&& q.units.len() == p.units.len()
            &&& forall|i: int| 0 <= i < p.units.len() && i != id ==> #[trigger] q.units[i] == p.units[i]
            &&& id ^ unit::offset_of(q.units[id as int]) == b
        },
{
    lemma_chain_plan(p, bases, g, u, id);
    unit::law_held(id ^ b);
    slots::lemma_distance(id, b);
    let word = p.units[id as int];
    unit::lemma_set_has_leaf(word);
    unit::lemma_set_offset(word, id ^ b);
    unit::lemma_set_offset(word | 0x100, id ^ b);
}

/// The base of a chain that is reached twice is kept, and only that.
pub proof fn law_known(g: Graph, bases: Seq<u32>, u: int, b: u32)
    requires
        0 <= u < g.marks.len(),
        bits::ones(g.marks.take(u)) < bases.len(),
    ensures
        with_base(g, bases, u, b).len() == bases.len(),
        g.marks[u] ==> with_base(g, bases, u, b)[bits::ones(g.marks.take(u)) as int] == b,
        forall|i: int|
            0 <= i < bases.len() && (i != bits::ones(g.marks.take(u)) || !g.marks[u]) ==> #[trigger] with_base(
                g,
                bases,
                u,
                b,
            )[i] == bases[i],
{
}

} // verus!
