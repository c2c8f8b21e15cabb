//! Building a double array from keys.

use vstd::prelude::*;
use crate::bits;
use crate::bytes;
use crate::chains;
use crate::chains::UnitStore;
use crate::dawg::DawgBuilder;
use crate::direct;
use crate::error;
use crate::error::BuildError;
use crate::graph;
use crate::keyset;
use crate::keyset::Keyset;
use crate::plan;
use crate::plan::Plan;
use crate::progress;
use crate::progress::{Callback, Progress, Silent};
use crate::sketch;
use crate::slots;
use crate::slots::{BuildUnit, Id, LOWER_MASK, SlotPool, UPPER_MASK};
use crate::trie;
use crate::trie::Dict;
use crate::unit;
use crate::words;

verus! {

/// Turns keys, or a word graph, into a double array.
pub struct DoubleArrayBuilder<'a> {
    pub pool: SlotPool,
    pub labels: Vec<u8>,
    /// The base of each intersection of the word graph, or zero.
    pub table: Vec<Id>,
    pub keyset: Keyset<'a>,
    pub dawg: DawgBuilder,
    /// The nodes that are done, with the dictionaries that they stand for.
    pub sem: Ghost<Map<u32, Dict>>,
}

/// The place of the chain `w` among the intersections.
pub open spec fn rank(s: UnitStore, w: u32) -> int {
    bits::ones(s.is_intersections@.take(w as int)) as int
}

/// If the table has a base for the chain `w`, its children stand for the keys of `w`.
pub open spec fn base_known(pool: SlotPool, sem: Map<u32, Dict>, table: Seq<u32>, s: UnitStore, w: u32) -> bool {
    s.chains@.contains_key(w) && s.is_intersections@[w as int] && table[rank(s, w)] != 0 ==> trie::base_ok(
        pool,
        sem,
        s.chains@[w].den,
        table[rank(s, w)],
    )
}

/// A node that waits for its children.
pub open spec fn bare(pool: SlotPool, sem: Map<u32, Dict>, id: u32) -> bool {
    &&& pool.fixed(id)
    &&& !unit::is_leaf_unit(pool.unit(id))
    &&& !unit::has_leaf_of(pool.unit(id))
    &&& !sem.contains_key(id)
}

/// From `old` to `new` nodes were only added, all at units that were free, except `dic_id`.
pub open spec fn added(old_pool: SlotPool, old: Map<u32, Dict>, new: Map<u32, Dict>, dic_id: u32) -> bool {
    &&& trie::extends(new, old)
    &&& forall|id: u32|
        #[trigger] new.contains_key(id) && !old.contains_key(id) ==> id == dic_id || !old_pool.fixed(id)
}

impl<'a> DoubleArrayBuilder<'a> {
    /// Not yet in use.
    pub open spec fn fresh(&self) -> bool {
        &&& self.pool.idle()
        &&& self.pool.len() == 0
        &&& self.pool.bases@ == Set::<u32>::empty()
        &&& self.dawg.fresh()
    }

    /// Between two nodes.
    pub open spec fn idle(&self) -> bool {
        &&& self.pool.idle()
        &&& trie::sem_ok(self.pool, self.sem@)
    }

    /// The word graph is finished, and the table fits it.
    pub open spec fn graph_ok(&self) -> bool {
        &&& self.dawg.store.wf()
        &&& self.dawg.store.is_intersections.ranked()
        &&& self.table@.len() == bits::ones(self.dawg.store.is_intersections@)
    }

    /// The table is right for the chains below `lim`.
    pub open spec fn table_ok(&self, lim: u32) -> bool {
        forall|w: u32| w < lim ==> #[trigger] base_known(self.pool, self.sem@, self.table@, self.dawg.store, w)
    }
}

/// Places of different intersections differ, and lie in the table.
proof fn lemma_rank(s: UnitStore, v: u32, w: u32)
    requires
        s.is_intersections@.len() == s.len(),
        v < w < s.len(),
        s.is_intersections@[v as int],
    ensures
        rank(s, v) < rank(s, w) <= bits::ones(s.is_intersections@),
{
    let b = s.is_intersections@;
    bits::lemma_ones_monotonic(b, v as int, w as int);
    bits::lemma_ones_monotonic(b, w as int, b.len() as int);
    assert(b.take(b.len() as int) =~= b);
}

proof fn lemma_rank_bound(s: UnitStore, v: u32)
    requires
        s.is_intersections@.len() == s.len(),
        v < s.len(),
        s.is_intersections@[v as int],
    ensures
        0 <= rank(s, v) < bits::ones(s.is_intersections@),
{
    let b = s.is_intersections@;
    bits::lemma_ones_monotonic(b, v as int, b.len() as int);
    assert(b.take(b.len() as int) =~= b);
}

/// The pool is as large as it was.
pub proof fn lemma_grew_self(p: SlotPool)
    ensures
        p.grew(&p, None),
{
}

/// What the table says stays right while nodes are added.
proof fn lemma_known_frame(
    old_pool: SlotPool,
    new_pool: SlotPool,
    old_sem: Map<u32, Dict>,
    new_sem: Map<u32, Dict>,
    old_table: Seq<u32>,
    new_table: Seq<u32>,
    s: UnitStore,
    w: u32,
    ex: Option<u32>,
)
    requires
        base_known(old_pool, old_sem, old_table, s, w),
        new_pool.grew(&old_pool, ex),
        ex matches Some(e) ==> !unit::is_leaf_unit(old_pool.unit(e)),
        trie::extends(new_sem, old_sem),
        s.chains@.contains_key(w) && s.is_intersections@[w as int] ==> new_table[rank(s, w)] == old_table[rank(
            s,
            w,
        )],
    ensures
        base_known(new_pool, new_sem, new_table, s, w),
{
    if s.chains@.contains_key(w) && s.is_intersections@[w as int] && old_table[rank(s, w)] != 0 {
        trie::lemma_base_frame(
            old_pool,
            new_pool,
            old_sem,
            new_sem,
            s.chains@[w].den,
            old_table[rank(s, w)],
            ex,
        );
    }
}

impl<'a> DoubleArrayBuilder<'a> {
    /// Places the children of the graph node `dawg_id` below the node `dic_id`.
    fn arrange_from_dawg(&mut self, dawg_id: Id, dic_id: Id) -> (res: Result<Id, BuildError>)
        requires
            old(self).idle(),
            old(self).dawg.store.wf(),
            dawg_id < old(self).dawg.store.len(),
            old(self).dawg.store.chains@.contains_key(
                chains::unit_child(old(self).dawg.store.units@[dawg_id as int].0),
            ),
            bare(old(self).pool, old(self).sem@, dic_id),
        ensures
            *final(self) == (DoubleArrayBuilder { pool: final(self).pool, labels: final(self).labels, ..*old(self) }),
            res matches Err(e) ==> e.text() == error::too_large() && old(self).pool.len() == 0x2000_0000
                && final(self).pool == old(self).pool,
            ({
                let g = old(self).dawg.store.graph();
                let u = chains::unit_child(g.units[dawg_id as int]) as int;
                old(self).pool.plan().arrange(dic_id, graph::labels_from(g, u), graph::leaf_value(g, u))
                    == match res {
                    Ok(b) => Some((final(self).pool.plan(), b)),
                    Err(_) => None,
                }
            }),
            res matches Ok(b) ==> ({
                let s = old(self).dawg.store;
                let u = chains::unit_child(s.units@[dawg_id as int].0);
                final(self).pool.arranged(
                    &old(self).pool,
                    dic_id,
                    s.chain_labels(u),
                    chains::unit_value(s.word(u, 0)),
                    b,
                )
            }),
    {
        let ghost s: UnitStore = self.dawg.store;
        let ghost u: u32 = chains::unit_child(s.units@[dawg_id as int].0);
        assert(s.chain_ok(u, s.len()));
        self.labels.clear();
        let mut dawg_child_id: Id = self.dawg.store.child(dawg_id);
        let mut value: i32 = -1;
        let ghost mut n: int = 0;
        while dawg_child_id != 0
            invariant
                s == self.dawg.store,
                s.wf(),
                s.chains@.contains_key(u),
                s.chain_ok(u, s.len()),
                *self == (DoubleArrayBuilder { labels: self.labels, ..*old(self) }),
                0 <= n <= s.chains@[u].len,
                dawg_child_id == (if n < s.chains@[u].len {
                    u + n
                } else {
                    0
                }),
                self.labels@ == s.chain_labels(u).take(n),
                n > 0 && s.lab(u, 0) == 0 ==> value == chains::unit_value(s.word(u, 0)) && value >= 0,
                n == 0 || s.lab(u, 0) != 0 ==> value == -1,
            decreases s.chains@[u].len - n,
        {
            proof {
                assert(s.entry_ok(u, n));
                assert(s.lab(u, n) == s.labels@[dawg_child_id as int]);
                assert(s.word(u, n) == s.units@[dawg_child_id as int].0);
                assert(s.chain_labels(u).take(n + 1) =~= s.chain_labels(u).take(n).push(s.lab(u, n)));
                if n > 0 {
                    assert(s.lab(u, 0) < s.lab(u, n));
                }
            }
            self.labels.push(self.dawg.store.label(dawg_child_id));
            if self.dawg.store.is_leaf(dawg_child_id) {
                value = self.dawg.store.value(dawg_child_id);
            }
            dawg_child_id = self.dawg.store.sibling(dawg_child_id);
            proof {
                n = n + 1;
            }
        }
        proof {
            let ls = s.chain_labels(u);
            assert(self.labels@ =~= ls);
            assert forall|i: int, j: int| 0 <= i < j < ls.len() implies ls[i] < ls[j] by {
                assert(s.lab(u, i) < s.lab(u, j));
            }
            assert(ls[0] == s.lab(u, 0));
            graph::lemma_labels_from(s, u, 0);
            assert(ls.skip(0) =~= ls);
        }
        let res: Result<Id, BuildError> = self.pool.arrange(dic_id, &self.labels, value);
        proof {
            if s.lab(u, 0) != 0 {
                if let Ok(b) = res {
                    assert(self.pool.arranged(
                        &old(self).pool,
                        dic_id,
                        s.chain_labels(u),
                        chains::unit_value(s.word(u, 0)),
                        b,
                    ));
                }
            }
        }
        res
    }
}

/// The first `n` children of the chain `u`, which are at the base `b` below the node `dic_id`,
/// are done; the others wait.
pub open spec fn placing(
    pool: SlotPool,
    sem: Map<u32, Dict>,
    s: UnitStore,
    u: u32,
    b: u32,
    dic_id: u32,
    n: int,
) -> bool {
    &&& pool.fixed(dic_id)
    &&& !unit::is_leaf_unit(pool.unit(dic_id))
    &&& !sem.contains_key(dic_id)
    &&& trie::base_of(pool, dic_id) == b
    &&& unit::has_leaf_of(pool.unit(dic_id)) == (s.lab(u, 0) == 0)
    &&& pool.bases@.contains(b)
    &&& b < pool.len()
    &&& forall|c: u8| #[trigger] pool.kid(b, c) <==> s.has_label(u, c)
    &&& s.lab(u, 0) == 0 ==> unit::is_leaf_unit(pool.unit(b)) && unit::value_of(pool.unit(b))
        == chains::unit_value(s.word(u, 0))
    &&& forall|i: int|
        #![trigger s.lab(u, i)]
        0 <= i < s.chains@[u].len && s.lab(u, i) != 0 ==> {
            let t = unit::slot(b, s.lab(u, i));
            if i < n {
                &&& sem.contains_key(t)
                &&& forall|k: Seq<u8>|
                    #[trigger] sem[t](k) == (s.chains@[chains::unit_child(s.word(u, i))].den)(k)
            } else {
                bare(pool, sem, t)
            }
        }
}

/// The labels of a chain are those that it has.
proof fn lemma_chain_labels(s: UnitStore, u: u32)
    requires
        s.chains@.contains_key(u),
        s.chain_ok(u, s.len()),
    ensures
        forall|c: u8| #[trigger] s.chain_labels(u).contains(c) <==> s.has_label(u, c),
        s.chain_labels(u)[0] == s.lab(u, 0),
        s.has_label(u, 0) <==> s.lab(u, 0) == 0,
{
    let ls = s.chain_labels(u);
    assert forall|c: u8| #[trigger] ls.contains(c) <==> s.has_label(u, c) by {
        if ls.contains(c) {
            let i = choose|i: int| 0 <= i < ls.len() && ls[i] == c;
            assert(s.lab(u, i) == c);
        }
        if s.has_label(u, c) {
            let i = choose|i: int| 0 <= i < s.chains@[u].len && #[trigger] s.lab(u, i) == c;
            assert(ls[i] == c);
        }
    }
    if s.has_label(u, 0) {
        let i = choose|i: int| 0 <= i < s.chains@[u].len && #[trigger] s.lab(u, i) == 0;
        if i > 0 {
            assert(s.lab(u, 0) < s.lab(u, i));
        }
    }
}

/// After the children got their units, all of them wait.
proof fn lemma_placing_starts(
    old_pool: SlotPool,
    pool: SlotPool,
    sem: Map<u32, Dict>,
    s: UnitStore,
    u: u32,
    b: u32,
    dic_id: u32,
)
    requires
        trie::sem_ok(old_pool, sem),
        bare(old_pool, sem, dic_id),
        s.chains@.contains_key(u),
        s.chain_ok(u, s.len()),
        pool.arranged(&old_pool, dic_id, s.chain_labels(u), chains::unit_value(s.word(u, 0)), b),
    ensures
        placing(pool, sem, s, u, b, dic_id, 0),
        trie::sem_ok(pool, sem),
        forall|c: u8| c != 0 && #[trigger] s.has_label(u, c) ==> !old_pool.fixed(unit::slot(b, c)),
{
    lemma_chain_labels(s, u);
    trie::lemma_sem_frame(old_pool, pool, sem, Some(dic_id));
    assert(pool.fixed(dic_id));
    assert forall|c: u8| c != 0 && #[trigger] s.has_label(u, c) implies !old_pool.fixed(unit::slot(b, c)) by {
        assert(s.chain_labels(u).contains(c));
    }
    assert forall|i: int|
        #![trigger s.lab(u, i)]
        0 <= i < s.chains@[u].len && s.lab(u, i) != 0 implies bare(pool, sem, unit::slot(b, s.lab(u, i))) by {
        let c = s.lab(u, i);
        let t = unit::slot(b, c);
        assert(s.has_label(u, c));
        assert(s.chain_labels(u).contains(c));
        assert(pool.kid(b, c));
        assert(!old_pool.fixed(t));
        if sem.contains_key(t) {
            assert(trie::node_ok(old_pool, sem, t));
        }
    }
}

/// A child that was done leaves the others waiting.
proof fn lemma_placing_goes_on(
    old_pool: SlotPool,
    pool: SlotPool,
    old_sem: Map<u32, Dict>,
    sem: Map<u32, Dict>,
    s: UnitStore,
    u: u32,
    b: u32,
    dic_id: u32,
    n: int,
)
    requires
        s.chains@.contains_key(u),
        s.chain_ok(u, s.len()),
        placing(old_pool, old_sem, s, u, b, dic_id, n),
        0 <= n < s.chains@[u].len,
        s.lab(u, n) != 0,
        dic_id != unit::slot(b, s.lab(u, n)),
        pool.grew(&old_pool, Some(unit::slot(b, s.lab(u, n)))),
        added(old_pool, old_sem, sem, unit::slot(b, s.lab(u, n))),
        sem.contains_key(unit::slot(b, s.lab(u, n))),
        forall|k: Seq<u8>|
            #[trigger] sem[unit::slot(b, s.lab(u, n))](k) == (s.chains@[chains::unit_child(s.word(u, n))].den)(k),
    ensures
        placing(pool, sem, s, u, b, dic_id, n + 1),
{
    let t = unit::slot(b, s.lab(u, n));
    assert(pool.fixed(dic_id));
    assert forall|c: u8| #[trigger] pool.kid(b, c) <==> s.has_label(u, c) by {
        trie::lemma_kid_stable(old_pool, pool, Some(t), b, c);
    }
    if s.lab(u, 0) == 0 {
        assert(s.has_label(u, 0));
        assert(old_pool.kid(b, 0));
        unit::lemma_slot_zero(b);
        assert(pool.fixed(b));
        assert(b != t) by {
            if b == t {
                unit::lemma_slot_injective(b, 0, s.lab(u, n));
            }
        }
    }
    assert forall|i: int|
        #![trigger s.lab(u, i)]
        0 <= i < s.chains@[u].len && s.lab(u, i) != 0 implies {
        let x = unit::slot(b, s.lab(u, i));
        if i < n + 1 {
            &&& sem.contains_key(x)
            &&& forall|k: Seq<u8>|
                #[trigger] sem[x](k) == (s.chains@[chains::unit_child(s.word(u, i))].den)(k)
        } else {
            bare(pool, sem, x)
        }
    } by {
        let x = unit::slot(b, s.lab(u, i));
        if i < n {
            assert(old_sem.contains_key(x));
        } else if i > n {
            assert(bare(old_pool, old_sem, x));
            assert(s.lab(u, n) < s.lab(u, i));
            if x == t {
                unit::lemma_slot_injective(b, s.lab(u, n), s.lab(u, i));
            }
            assert(pool.fixed(x));
            if sem.contains_key(x) {
                assert(x == t || !old_pool.fixed(x));
            }
        }
    }
}

/// When all children are done, the base stands for the keys of the chain.
proof fn lemma_placing_ends(pool: SlotPool, sem: Map<u32, Dict>, s: UnitStore, u: u32, b: u32, dic_id: u32)
    requires
        s.chains@.contains_key(u),
        s.chain_ok(u, s.len()),
        placing(pool, sem, s, u, b, dic_id, s.chains@[u].len as int),
    ensures
        trie::base_ok(pool, sem, s.chains@[u].den, b),
        unit::has_leaf_of(pool.unit(dic_id)) == pool.kid(b, 0),
{
    let den = s.chains@[u].den;
    lemma_chain_labels(s, u);
    unit::lemma_slot_zero(b);
    assert forall|c: u8| #[trigger] trie::child_ok(pool, sem, den, b, c) by {
        if c != 0 && pool.kid(b, c) {
            assert(s.has_label(u, c));
            let i = choose|i: int| 0 <= i < s.chains@[u].len && #[trigger] s.lab(u, i) == c;
            assert(s.entry_ok(u, i));
            let t = unit::slot(b, c);
            assert(sem.contains_key(t));
            assert forall|k: Seq<u8>| #[trigger] den(trie::cons(c, k)) == sem[t](k) by {
                assert(sem[t](k) == (s.chains@[chains::unit_child(s.word(u, i))].den)(k));
            }
        }
    }
}

/// The units of a chain weigh at least one each.
proof fn lemma_loads_bound(s: UnitStore, u: u32, m: nat, n: nat)
    requires
        m <= n,
    ensures
        s.loads(u, m) >= m,
        s.loads(u, m) + (n - m) <= s.loads(u, n),
    decreases n,
{
    if m < n {
        lemma_loads_bound(s, u, m, (n - 1) as nat);
    } else if m > 0 {
        lemma_loads_bound(s, u, (m - 1) as nat, (m - 1) as nat);
    }
}

/// A chain of small weight needs no other block.
proof fn lemma_arrange_small(s: UnitStore, u: u32, pool: SlotPool, dic_id: u32, k: int)
    requires
        s.chains@.contains_key(u),
        s.chain_ok(u, s.len()),
        s.labels@.len() == s.len(),
        pool.plan().small(k),
        pool.fixed(dic_id),
        0 <= k,
        k + s.chains@[u].weight <= 30,
    ensures
        pool.plan().arrange(
            dic_id,
            graph::labels_from(s.graph(), u as int),
            graph::leaf_value(s.graph(), u as int),
        ) matches Some((q, b)) && q.small(k + s.chains@[u].len),
{
    let m = s.chains@[u].len;
    let g = s.graph();
    lemma_loads_bound(s, u, m, m);
    graph::lemma_labels_from(s, u, 0);
    assert(s.chain_labels(u).skip(0) =~= s.chain_labels(u));
    plan::lemma_small_product(k, m as int);
    plan::lemma_arrange_small(
        pool.plan(),
        dic_id,
        graph::labels_from(g, u as int),
        graph::leaf_value(g, u as int),
        k,
    );
}

/// A done node gets its dictionary.
pub proof fn lemma_done(pool: SlotPool, sem: Map<u32, Dict>, dic_id: u32, d: Dict, b: u32)
    requires
        trie::sem_ok(pool, sem),
        !sem.contains_key(dic_id),
        pool.fixed(dic_id),
        !unit::is_leaf_unit(pool.unit(dic_id)),
        trie::base_of(pool, dic_id) == b,
        unit::has_leaf_of(pool.unit(dic_id)) == pool.kid(b, 0),
        trie::base_ok(pool, sem, d, b),
    ensures
        trie::sem_ok(pool, sem.insert(dic_id, d)),
        trie::extends(sem.insert(dic_id, d), sem),
        trie::base_ok(pool, sem.insert(dic_id, d), d, b),
{
    trie::lemma_sem_add(pool, sem, dic_id, d);
    lemma_grew_self(pool);
    trie::lemma_base_frame(pool, pool, sem, sem.insert(dic_id, d), d, b, None);
}

impl<'a> DoubleArrayBuilder<'a> {
    /// Uses the base `offset`, at which the children of the chain `u` already are, for the
    /// node `dic_id`.
    fn share_base(&mut self, dic_id: Id, offset: Id, is_leaf: bool, Ghost(u): Ghost<u32>) -> (res: Result<
        (),
        BuildError,
    >)
        requires
            old(self).idle(),
            old(self).dawg.store.wf(),
            old(self).dawg.store.chains@.contains_key(u),
            is_leaf == (old(self).dawg.store.lab(u, 0) == 0),
            bare(old(self).pool, old(self).sem@, dic_id),
            slots::near(dic_id, offset),
            trie::base_ok(old(self).pool, old(self).sem@, old(self).dawg.store.chains@[u].den, offset),
        ensures
            *final(self) == (DoubleArrayBuilder { pool: final(self).pool, sem: final(self).sem, ..*old(self) }),
            res is Ok,
            final(self).idle(),
            added(old(self).pool, old(self).sem@, final(self).sem@, dic_id),
            final(self).sem@.contains_key(dic_id),
            final(self).sem@[dic_id] == old(self).dawg.store.chains@[u].den,
            final(self).pool.grew(&old(self).pool, Some(dic_id)),
            final(self).pool.len() == old(self).pool.len(),
            final(self).pool.plan() == old(self).pool.plan().share(dic_id, offset, is_leaf),
    {
        let ghost den: Dict = self.dawg.store.chains@[u].den;
        let ghost sem: Map<u32, Dict> = self.sem@;
        let res: Result<(), BuildError> = self.pool.share(dic_id, offset, is_leaf);
        proof {
            assert(old(self).dawg.store.chain_ok(u, old(self).dawg.store.len()));
            trie::lemma_sem_frame(old(self).pool, self.pool, sem, Some(dic_id));
            trie::lemma_base_frame(old(self).pool, self.pool, sem, sem, den, offset, Some(dic_id));
            assert(self.pool.fixed(dic_id));
            lemma_done(self.pool, sem, dic_id, den, offset);
            self.sem@ = sem.insert(dic_id, den);
        }
        res
    }

    /// Places everything below the graph node `dawg_id` below the node `dic_id`.
    #[verifier::rlimit(40)]
    fn build_from_dawg_recursive(&mut self, dawg_id: Id, dic_id: Id, Ghost(lim): Ghost<u32>) -> (res: Result<
        (),
        BuildError,
    >)
        requires
            old(self).idle(),
            old(self).graph_ok(),
            dawg_id < old(self).dawg.store.len(),
            old(self).dawg.store.chains@.contains_key(
                chains::unit_child(old(self).dawg.store.units@[dawg_id as int].0),
            ),
            chains::unit_child(old(self).dawg.store.units@[dawg_id as int].0) < lim,
            bare(old(self).pool, old(self).sem@, dic_id),
            old(self).table_ok(lim),
            old(self).pool.bases@.contains(0),
        ensures
            *final(self) == (DoubleArrayBuilder {
                pool: final(self).pool,
                labels: final(self).labels,
                table: final(self).table,
                sem: final(self).sem,
                ..*old(self)
            }),
            forall|k: int|
                #[trigger] old(self).pool.plan().small(k) && 0 <= k ==> {
                    let s = old(self).dawg.store;
                    let w = s.chains@[chains::unit_child(s.units@[dawg_id as int].0)].weight;
                    k + w <= 30 ==> res is Ok && final(self).pool.plan().small(k + w)
                },
            ({
                let s = old(self).dawg.store;
                let u = chains::unit_child(s.units@[dawg_id as int].0);
                match res {
                    Err(e) => {
                        &&& e.text() == error::too_large()
                        &&& final(self).pool.len() == 0x2000_0000
                        &&& graph::chain_plan(old(self).pool.plan(), old(self).table@, s.graph(), u as int, dic_id)
                            is None
                        &&& old(self).pool.len() + 256 * (s.chains@[u].weight - 1) >= 0x2000_0000
                    },
                    Ok(()) => {
                        &&& graph::chain_plan(old(self).pool.plan(), old(self).table@, s.graph(), u as int, dic_id)
                            == Some((final(self).pool.plan(), final(self).table@))
                        &&& final(self).idle()
                        &&& final(self).graph_ok()
                        &&& final(self).table_ok(lim)
                        &&& forall|w: u32|
                            lim <= w < s.len() && #[trigger] s.is_intersections@[w as int]
                                ==> final(self).table@[rank(s, w)] == old(self).table@[rank(s, w)]
                        &&& added(old(self).pool, old(self).sem@, final(self).sem@, dic_id)
                        &&& final(self).sem@.contains_key(dic_id)
                        &&& final(self).sem@[dic_id] == s.chains@[u].den
                        &&& final(self).pool.grew(&old(self).pool, Some(dic_id))
                        &&& final(self).pool.len() <= old(self).pool.len() + 256 * s.chains@[u].weight
                    },
                }
            }),
        decreases chains::unit_child(old(self).dawg.store.units@[dawg_id as int].0),
    {
        let ghost s: UnitStore = self.dawg.store;
        let ghost u: u32 = chains::unit_child(s.units@[dawg_id as int].0);
        let ghost m: int = s.chains@[u].len as int;
        let ghost whole: Option<(Plan, Seq<u32>)> = graph::chain_plan(
            self.pool.plan(),
            self.table@,
            s.graph(),
            u as int,
            dic_id,
        );
        assert(s.chain_ok(u, s.len()));
        proof {
            lemma_loads_bound(s, u, 0, m as nat);
            assert(s.graph().labels[u as int] == s.lab(u, 0));
            assert(s.graph().marks[u as int] == s.is_intersections@[u as int]);
            graph::lemma_chain_plan(self.pool.plan(), self.table@, s.graph(), u as int, dic_id);
        }
        let dawg_child_id: Id = self.dawg.store.child(dawg_id);
        let is_intersection: bool = self.dawg.store.is_intersection(dawg_child_id);
        if is_intersection {
            proof {
                lemma_rank_bound(s, u);
            }
            let intersection_id: usize = self.dawg.store.intersection_id(dawg_child_id) as usize;
            let offset: Id = self.table[intersection_id];
            if offset != 0 {
                assert(base_known(self.pool, self.sem@, self.table@, s, u));
                let rel_offset: Id = dic_id ^ offset;
                if (rel_offset & UPPER_MASK == 0) || (rel_offset & LOWER_MASK == 0) {
                    let is_leaf: bool = self.dawg.store.is_leaf(dawg_child_id);
                    let res: Result<(), BuildError> = self.share_base(dic_id, offset, is_leaf, Ghost(u));
                    proof {
                        assert forall|w: u32| w < lim implies #[trigger] base_known(
                            self.pool,
                            self.sem@,
                            self.table@,
                            s,
                            w,
                        ) by {
                            assert(base_known(old(self).pool, old(self).sem@, old(self).table@, s, w));
                            lemma_known_frame(
                                old(self).pool,
                                self.pool,
                                old(self).sem@,
                                self.sem@,
                                old(self).table@,
                                self.table@,
                                s,
                                w,
                                Some(dic_id),
                            );
                        }
                    }
                    return res;
                }
            }
        }
        let offset: Id = match self.arrange_from_dawg(dawg_id, dic_id) {
            Ok(offset) => offset,
            Err(e) => {
                proof {
                    assert forall|k: int|
                        #[trigger] old(self).pool.plan().small(k) && 0 <= k && k + s.chains@[u].weight <= 30 implies false by {
                        lemma_arrange_small(s, u, old(self).pool, dic_id, k);
                    }
                }
                return Err(e);
            },
        };
        let ghost b: u32 = offset;
        proof {
            lemma_placing_starts(old(self).pool, self.pool, self.sem@, s, u, b, dic_id);
            assert forall|k: int|
                #[trigger] old(self).pool.plan().small(k) && 0 <= k && k + s.chains@[u].weight <= 30 implies self.pool.plan().small(
                k + m,
            ) by {
                lemma_arrange_small(s, u, old(self).pool, dic_id, k);
            }
        }
        if is_intersection {
            let intersection_id: usize = self.dawg.store.intersection_id(dawg_child_id) as usize;
            self.table.set(intersection_id, offset);
        }
        let ghost table: Seq<u32> = self.table@;
        proof {
            assert forall|w: u32| w < lim && w != u implies #[trigger] base_known(
                self.pool,
                self.sem@,
                self.table@,
                s,
                w,
            ) by {
                assert(base_known(old(self).pool, old(self).sem@, old(self).table@, s, w));
                if is_intersection && s.chains@.contains_key(w) && s.is_intersections@[w as int] {
                    assert(s.chain_ok(w, s.len()));
                    if w < u {
                        lemma_rank(s, w, u);
                    } else {
                        lemma_rank(s, u, w);
                    }
                    lemma_rank_bound(s, w);
                }
                lemma_known_frame(
                    old(self).pool,
                    self.pool,
                    old(self).sem@,
                    self.sem@,
                    old(self).table@,
                    self.table@,
                    s,
                    w,
                    Some(dic_id),
                );
            }
            assert forall|w: u32| u < w < s.len() && #[trigger] s.is_intersections@[w as int] implies self.table@[rank(
                s,
                w,
            )] == old(self).table@[rank(s, w)] by {
                if is_intersection {
                    lemma_rank(s, u, w);
                    lemma_rank_bound(s, w);
                }
            }
        }
        let mut current_dawg_child: Id = self.dawg.store.child(dawg_id);
        let ghost mut n: int = 0;
        while current_dawg_child != 0
            invariant
                s == self.dawg.store,
                u == chains::unit_child(s.units@[dawg_id as int].0),
                dawg_id < s.len(),
                b == offset,
                m == s.chains@[u].len,
                s.chains@.contains_key(u),
                s.chain_ok(u, s.len()),
                u < lim,
                s.chains@[u].weight == s.loads(u, m as nat),
                *self == (DoubleArrayBuilder {
                    pool: self.pool,
                    labels: self.labels,
                    table: self.table,
                    sem: self.sem,
                    ..*old(self)
                }),
                bare(old(self).pool, old(self).sem@, dic_id),
                0 <= n <= m,
                current_dawg_child == (if n < m {
                    u + n
                } else {
                    0
                }),
                self.idle(),
                self.graph_ok(),
                self.pool.bases@.contains(0),
                self.pool.grew(&old(self).pool, Some(dic_id)),
                n < m ==> graph::units_plan(self.pool.plan(), self.table@, s.graph(), u as int, u + n, b) == whole,
                n == m ==> whole == Some((self.pool.plan(), self.table@)),
                whole == graph::chain_plan(old(self).pool.plan(), old(self).table@, s.graph(), u as int, dic_id),
                forall|k: int|
                    #[trigger] old(self).pool.plan().small(k) && 0 <= k && k + s.chains@[u].weight <= 30
                        ==> self.pool.plan().small(k + m + s.loads(u, n as nat) - n),
                placing(self.pool, self.sem@, s, u, b, dic_id, n),
                added(old(self).pool, old(self).sem@, self.sem@, dic_id),
                forall|c: u8|
                    c != 0 && #[trigger] s.has_label(u, c) ==> !old(self).pool.fixed(unit::slot(b, c)),
                self.pool.len() <= old(self).pool.len() + 256 * (1 + s.loads(u, n as nat) - n),
                forall|w: u32|
                    w < lim && w != u ==> #[trigger] base_known(self.pool, self.sem@, self.table@, s, w),
                forall|w: u32|
                    u <= w < s.len() && #[trigger] s.is_intersections@[w as int] ==> self.table@[rank(s, w)]
                        == table[rank(s, w)],
            decreases m - n,
        {
            let ghost mid: DoubleArrayBuilder<'a> = *self;
            proof {
                assert(s.entry_ok(u, n));
                assert(s.lab(u, n) == s.labels@[current_dawg_child as int]);
                assert(s.word(u, n) == s.units@[current_dawg_child as int].0);
                assert(s.graph().units[u + n] == s.word(u, n));
                assert(s.graph().labels[u + n] == s.lab(u, n));
                graph::lemma_units_plan(self.pool.plan(), self.table@, s.graph(), u as int, u + n, b);
                lemma_loads_bound(s, u, n as nat, (n + 1) as nat);
                lemma_loads_bound(s, u, (n + 1) as nat, m as nat);
                lemma_loads_bound(s, u, n as nat, n as nat);
                assert(s.loads(u, (n + 1) as nat) == s.loads(u, n as nat) + s.load(u, n));
            }
            let child_label: u8 = self.dawg.store.label(current_dawg_child);
            if child_label != 0 {
                let ghost t: u32 = unit::slot(b, child_label);
                proof {
                    assert(s.has_label(u, child_label));
                    assert(!old(self).pool.fixed(t));
                    assert(bare(self.pool, self.sem@, t));
                }
                match self.build_from_dawg_recursive(
                    current_dawg_child,
                    offset ^ (child_label as Id),
                    Ghost(u),
                ) {
                    Ok(()) => {},
                    Err(e) => {
                        return Err(e);
                    },
                }
                proof {
                    lemma_placing_goes_on(mid.pool, self.pool, mid.sem@, self.sem@, s, u, b, dic_id, n);
                    slots::lemma_grew_twice(old(self).pool, mid.pool, self.pool, Some(dic_id), Some(t));
                    assert forall|w: u32| w < lim && w != u implies #[trigger] base_known(
                        self.pool,
                        self.sem@,
                        self.table@,
                        s,
                        w,
                    ) by {
                        if w > u {
                            assert(base_known(mid.pool, mid.sem@, mid.table@, s, w));
                            if s.chains@.contains_key(w) {
                                assert(s.chain_ok(w, s.len()));
                            }
                            lemma_known_frame(
                                mid.pool,
                                self.pool,
                                mid.sem@,
                                self.sem@,
                                mid.table@,
                                self.table@,
                                s,
                                w,
                                Some(t),
                            );
                        }
                    }
                    assert forall|id: u32| #[trigger] self.sem@.contains_key(id) && !old(self).sem@.contains_key(
                        id,
                    ) implies id == dic_id || !old(self).pool.fixed(id) by {
                        if !mid.sem@.contains_key(id) {
                            if id != t {
                                assert(!mid.pool.fixed(id));
                            }
                        }
                    }
                    assert forall|id: u32| #[trigger] old(self).sem@.contains_key(id) implies self.sem@.contains_key(
                        id,
                    ) && self.sem@[id] == old(self).sem@[id] by {
                        assert(mid.sem@.contains_key(id));
                    }
                }
            }
            current_dawg_child = self.dawg.store.sibling(current_dawg_child);
            proof {
                n = n + 1;
                assert(placing(self.pool, self.sem@, s, u, b, dic_id, n));
            }
        }
        let ghost last: DoubleArrayBuilder<'a> = *self;
        proof {
            let den = s.chains@[u].den;
            lemma_placing_ends(self.pool, self.sem@, s, u, b, dic_id);
            lemma_done(self.pool, self.sem@, dic_id, den, b);
            self.sem@ = self.sem@.insert(dic_id, den);
            lemma_grew_self(self.pool);
            lemma_loads_bound(s, u, m as nat, m as nat);
            assert forall|w: u32| w < lim implies #[trigger] base_known(
                self.pool,
                self.sem@,
                self.table@,
                s,
                w,
            ) by {
                if w != u {
                    assert(base_known(last.pool, last.sem@, last.table@, s, w));
                    lemma_known_frame(
                        last.pool,
                        self.pool,
                        last.sem@,
                        self.sem@,
                        last.table@,
                        self.table@,
                        s,
                        w,
                        None,
                    );
                } else if is_intersection {
                    assert(self.table@[rank(s, u)] == b);
                }
            }
        }
        Ok(())
    }
}

/// Whether no key has a zero byte.
pub open spec fn zero_free(keys: Seq<Seq<u8>>) -> bool {
    forall|i: int| 0 <= i < keys.len() ==> !(#[trigger] keys[i]).contains(0)
}

/// The keys, each cut before its first zero byte.
pub open spec fn cut_keys(keys: Seq<Seq<u8>>) -> Seq<Seq<u8>> {
    Seq::new(keys.len(), |i: int| words::cut(keys[i]))
}

/// Whether `kept` has the values of the keys without zero bytes, and any others for the rest.
pub open spec fn keeps_values(keys: Seq<Seq<u8>>, values: Seq<i32>, kept: Seq<i32>) -> bool {
    &&& kept.len() == keys.len()
    &&& forall|i: int| 0 <= i < keys.len() && !(#[trigger] keys[i]).contains(0) ==> kept[i] == values[i]
}

/// Whether a dictionary has the cut keys, with the values `kept`.
pub open spec fn stands_for(d: Dict, keys: Seq<Seq<u8>>, values: Seq<i32>, kept: Seq<i32>) -> bool {
    &&& keeps_values(keys, values, kept)
    &&& forall|k: Seq<u8>| #[trigger] d(k) == words::dict_of(cut_keys(keys), kept)(k)
}

/// The first key that is cut to `k` is one of the first `n`, and has a zero byte.
pub open spec fn cut_first(keys: Seq<Seq<u8>>, n: int, k: Seq<u8>) -> bool {
    exists|i: int|
        #![trigger keys[i]]
        0 <= i < n && words::cut(keys[i]) == k && keys[i].contains(0) && forall|j: int|
            0 <= j < i ==> words::cut(#[trigger] keys[j]) != k
}

/// A key with a zero byte is the first that is cut to what is left of it.
proof fn lemma_cut_first(keys: Seq<Seq<u8>>, values: Seq<i32>, n: int)
    requires
        0 <= n < keys.len(),
        keys[n].contains(0),
        words::first_value(cut_keys(keys), values, n, words::cut(keys[n])) is None,
    ensures
        cut_first(keys, n + 1, words::cut(keys[n])),
{
    let short = cut_keys(keys);
    assert forall|j: int| 0 <= j < n implies words::cut(#[trigger] keys[j]) != words::cut(keys[n]) by {
        assert(short[j] == words::cut(keys[j]));
        if short[j] == words::cut(keys[n]) {
            words::lemma_occurs_some(short, values, n, j);
        }
    }
}

/// The values that a dictionary keeps of cut keys.
proof fn lemma_stands_for(d: Dict, keys: Seq<Seq<u8>>, values: Seq<i32>, cuts: Set<Seq<u8>>) -> (kept: Seq<i32>)
    requires
        forall|k: Seq<u8>|
            (#[trigger] d(k)) is Some <==> words::first_value(cut_keys(keys), values, keys.len() as int, k) is Some,
        forall|k: Seq<u8>|
            !cuts.contains(k) ==> #[trigger] d(k) == words::first_value(cut_keys(keys), values, keys.len() as int, k),
        forall|k: Seq<u8>| #[trigger] cuts.contains(k) ==> cut_first(keys, keys.len() as int, k),
    ensures
        stands_for(d, keys, values, kept),
{
    let n = keys.len() as int;
    let short = cut_keys(keys);
    let kept = Seq::new(
        keys.len(),
        |i: int|
            if keys[i].contains(0) {
                d(short[i])->0
            } else {
                values[i]
            },
    );
    assert forall|k: Seq<u8>| #[trigger] d(k) == words::dict_of(short, kept)(k) by {
        if d(k) is Some {
            let x = words::lemma_first_occurs(short, values, n, k);
            words::lemma_first_at(short, kept, n, x);
            if keys[x].contains(0) {
                assert(kept[x] == d(k)->0);
            } else {
                if cuts.contains(k) {
                    let y = choose|i: int|
                        #![trigger keys[i]]
                        0 <= i < n && words::cut(keys[i]) == k && keys[i].contains(0) && forall|j: int|
                            0 <= j < i ==> words::cut(#[trigger] keys[j]) != k;
                    assert(short[y] == k);
                    assert(words::cut(keys[x]) == k);
                    assert(x == y);
                }
            }
        } else {
            if words::first_value(short, kept, n, k) is Some {
                let x = words::lemma_first_occurs(short, kept, n, k);
                words::lemma_occurs_some(short, values, n, x);
            }
        }
    }
    kept
}

/// The array holds the keys of the dictionary, if there are any, and no others.
pub open spec fn holds(a: Seq<u32>, d: Dict, any: bool) -> bool {
    &&& trie::reads_as(a, d)
    &&& any ==> trie::walks_as(a, d)
}

/// A finished pool holds what its root stands for.
pub proof fn lemma_holds(pool: SlotPool, sem: Map<u32, Dict>, d: Dict)
    requires
        pool.shape_wf(),
        trie::sem_ok(pool, sem),
        sem.contains_key(0),
        forall|k: Seq<u8>| #[trigger] sem[0](k) == d(k),
        forall|s: u32| #![trigger pool.fixed(s)] s < pool.len() ==> pool.fixed(s),
    ensures
        holds(slots::words_of(pool.units@), d, true),
{
    let a = slots::words_of(pool.units@);
    assert forall|k: Seq<u8>| #[trigger] trie::lookup(a, 0, k) == d(k) by {
        trie::lemma_reads(pool, sem, a, 0, k);
    }
    assert forall|k: Seq<u8>| (#[trigger] trie::walk(a, 0, k)) is Some <==> trie::begins(d, k) by {
        trie::lemma_reads(pool, sem, a, 0, k);
        if trie::begins(sem[0], k) {
            let rest = choose|rest: Seq<u8>| (#[trigger] sem[0](k + rest)) is Some;
            assert(d(k + rest) is Some);
        }
        if trie::begins(d, k) {
            let rest = choose|rest: Seq<u8>| (#[trigger] d(k + rest)) is Some;
            assert(sem[0](k + rest) is Some);
        }
    }
}

impl<'a> DoubleArrayBuilder<'a> {
    /// Builds the word graph of the keys and values.
    fn build_dawg<P: Progress>(&mut self, progress: &mut P) -> (res: Result<(), BuildError>)
        requires
            old(self).keyset.wf(),
            old(progress).ready(),
            sketch::roomy(old(self).keyset.seqs(), old(self).keyset.vals()),
            old(self).dawg.fresh(),
        ensures
            *final(self) == (DoubleArrayBuilder { dawg: final(self).dawg, ..*old(self) }),
            final(progress).ready(),
            *final(progress) == progress::heard(
                *old(progress),
                0,
                words::accepted(
                    old(self).keyset.seqs(),
                    old(self).keyset.vals(),
                    old(self).keyset.seqs().len() as int,
                ),
                (old(self).keyset.seqs().len() + 1) as int,
            ),
            res is Ok ==> *final(progress) == progress::heard(
                *old(progress),
                0,
                old(self).keyset.seqs().len() as int,
                (old(self).keyset.seqs().len() + 1) as int,
            ),
            ({
                let keys = old(self).keyset.seqs();
                let vals = old(self).keyset.vals();
                let n = keys.len() as int;
                match res {
                    Err(e) => words::sequence_error(keys, vals, n) == Some(e.text()),
                    Ok(()) => {
                        let s = final(self).dawg.store;
                        let root = chains::unit_child(s.units@[0].0);
                        &&& words::sequence_error(keys, vals, n) is None
                        &&& s.graph() == sketch::graph_of(keys, vals)
                        &&& s.wf()
                        &&& s.is_intersections.ranked()
                        &&& if n == 0 {
                            root == 0
                        } else {
                            &&& s.chains@.contains_key(root)
                            &&& s.chains@[root].weight <= words::trie_size(keys, n)
                            &&& exists|w: Seq<i32>| #[trigger] stands_for(s.chains@[root].den, keys, vals, w)
                        }
                    },
                }
            }),
    {
        let ghost keys: Seq<Seq<u8>> = self.keyset.seqs();
        let ghost vals: Seq<i32> = self.keyset.vals();
        let n: usize = self.keyset.num_keys();
        self.dawg.init();
        let mut i: usize = 0;
        while i < n
            invariant
                i <= n,
                n == keys.len(),
                n < usize::MAX,
                keys == self.keyset.seqs(),
                vals == self.keyset.vals(),
                self.keyset.wf(),
                progress.ready(),
                *progress == progress::heard(*old(progress), 0, i as int, n + 1),
                *self == (DoubleArrayBuilder { dawg: self.dawg, ..*old(self) }),
                sketch::roomy(keys, vals),
                self.dawg.ready(),
                self.dawg.path() == words::path_after(keys, i as int),
                self.dawg.made@ == words::trie_size(keys, i as int),
                words::sequence_error(keys, vals, i as int) is None,
                self.dawg.holds() == sketch::after(keys, vals, i as int),
                forall|k: Seq<u8>|
                    (#[trigger] (self.dawg.dict@)(k)) is Some <==> words::first_value(
                        cut_keys(keys),
                        vals,
                        i as int,
                        k,
                    ) is Some,
                forall|k: Seq<u8>|
                    !self.dawg.cuts@.contains(k) ==> #[trigger] (self.dawg.dict@)(k) == words::first_value(
                        cut_keys(keys),
                        vals,
                        i as int,
                        k,
                    ),
                forall|k: Seq<u8>| #[trigger] self.dawg.cuts@.contains(k) ==> cut_first(keys, i as int, k),
            decreases n - i,
        {
            let ghost dict: Dict = self.dawg.dict@;
            let ghost cuts: Set<Seq<u8>> = self.dawg.cuts@;
            let key: &[u8] = self.keyset.key(i);
            let value: i32 = self.keyset.value(i);
            proof {
                words::lemma_new_bytes(keys, i as int, value);
                assert(keys[i as int].len() < usize::MAX);
                assert(sketch::after(keys, vals, i + 1) == self.dawg.holds().insert(key@, value));
            }
            let inserted: Result<(), BuildError> = self.dawg.insert(key, value);
            if let Err(e) = inserted {
                proof {
                    assert(words::sequence_error(keys, vals, i + 1) == Some(e.text()));
                    words::lemma_error_stays(keys, vals, i + 1, n as int);
                    words::lemma_accepted(keys, vals, i as int, n as int);
                }
                return Err(e);
            }
            progress.report(i + 1, n + 1);
            proof {
                assert(words::sequence_error(keys, vals, i + 1) is None);
                let short = cut_keys(keys);
                let added = words::with_key(dict, short[i as int], value);
                assert(words::cut(key@) == short[i as int]);
                assert forall|k: Seq<u8>| (#[trigger] (self.dawg.dict@)(k)) is Some <==> words::first_value(
                    short,
                    vals,
                    i + 1,
                    k,
                ) is Some by {
                    assert(added(k) is Some <==> (self.dawg.dict@)(k) is Some);
                    assert(dict(k) is Some <==> words::first_value(short, vals, i as int, k) is Some);
                }
                assert forall|k: Seq<u8>|
                    !self.dawg.cuts@.contains(k) implies #[trigger] (self.dawg.dict@)(k) == words::first_value(
                    short,
                    vals,
                    i + 1,
                    k,
                ) by {
                    assert(!cuts.contains(k));
                    assert(added(k) == (self.dawg.dict@)(k));
                    assert(dict(k) == words::first_value(short, vals, i as int, k));
                }
                assert forall|k: Seq<u8>| #[trigger] self.dawg.cuts@.contains(k) implies cut_first(
                    keys,
                    i + 1,
                    k,
                ) by {
                    if cuts.contains(k) {
                        assert(cut_first(keys, i as int, k));
                    } else {
                        assert(dict(k) is None);
                        lemma_cut_first(keys, vals, i as int);
                    }
                }
            }
            i += 1;
        }
        proof {
            if n > 0 {
                words::lemma_path_after(keys, n as int);
            }
        }
        let ghost before: DawgBuilder = self.dawg;
        self.dawg.finish();
        proof {
            if n > 0 {
                let den = self.dawg.store.chains@[chains::unit_child(self.dawg.store.units@[0].0)].den;
                assert forall|k: Seq<u8>| (#[trigger] den(k)) is Some <==> words::first_value(
                    cut_keys(keys),
                    vals,
                    n as int,
                    k,
                ) is Some by {
                    assert((before.dict@)(k) is Some <==> den(k) is Some);
                }
                assert forall|k: Seq<u8>|
                    !before.cuts@.contains(k) implies #[trigger] den(k) == words::first_value(
                    cut_keys(keys),
                    vals,
                    n as int,
                    k,
                ) by {
                    assert((before.dict@)(k) == den(k));
                }
                let kept = lemma_stands_for(den, keys, vals, before.cuts@);
                assert(stands_for(den, keys, vals, kept));
            }
        }
        Ok(())
    }

    /// Turns the word graph into a double array.
    fn build_from_dawg(&mut self) -> (res: Result<(), BuildError>)
        requires
            old(self).pool.idle(),
            old(self).pool.len() == 0,
            old(self).pool.bases@ == Set::<u32>::empty(),
            old(self).dawg.store.wf(),
            old(self).dawg.store.is_intersections.ranked(),
            ({
                let s = old(self).dawg.store;
                let root = chains::unit_child(s.units@[0].0);
                root == 0 || s.chains@.contains_key(root)
            }),
        ensures
            ({
                let s = old(self).dawg.store;
                let root = chains::unit_child(s.units@[0].0);
                match res {
                    Err(e) => {
                        &&& root != 0
                        &&& e.text() == error::too_large()
                        &&& final(self).pool.len() == 0x2000_0000
                        &&& graph::layout(s.graph()) is None
                        &&& 256 * s.chains@[root].weight >= 0x2000_0000
                    },
                    Ok(()) => {
                        &&& graph::layout(s.graph()) == Some(slots::words_of(final(self).pool.units@))
                        &&& root == 0 || s.chains@[root].weight <= 29 ==> final(self).pool.len() == 256
                        &&& root != 0 ==> final(self).pool.len() <= 256 * (1 + s.chains@[root].weight)
                        &&& final(self).pool.len() > 0
                        &&& final(self).pool.shape_wf()
                        &&& if root == 0 {
                            holds(slots::words_of(final(self).pool.units@), |k: Seq<u8>| None, false)
                        } else {
                            holds(slots::words_of(final(self).pool.units@), s.chains@[root].den, true)
                        }
                    },
                }
            }),
            final(self).keyset == old(self).keyset,
    {
        let ghost s: UnitStore = self.dawg.store;
        let ghost root: u32 = chains::unit_child(s.units@[0].0);
        let num_intersections: usize = self.dawg.store.num_intersections();
        self.table = vec![0; num_intersections];
        self.pool.plant_root()?;
        proof {
            self.sem@ = Map::empty();
            assert(s.graph().units[0] == s.units@[0].0);
            assert(self.table@ =~= Seq::new(bits::ones(s.graph().marks), |i: int| 0u32));
        }
        let dawg_root: Id = 0;
        if self.dawg.store.child(dawg_root) != 0 {
            let ghost lim: u32 = (root + 1) as u32;
            proof {
                assert(s.chain_ok(root, s.len()));
                assert forall|w: u32| w < lim implies #[trigger] base_known(
                    self.pool,
                    self.sem@,
                    self.table@,
                    s,
                    w,
                ) by {
                    if s.chains@.contains_key(w) && s.is_intersections@[w as int] {
                        assert(s.chain_ok(w, s.len()));
                        lemma_rank_bound(s, w);
                    }
                }
            }
            assert(self.pool.plan().small(1));
            match self.build_from_dawg_recursive(dawg_root, 0, Ghost(lim)) {
                Ok(()) => {},
                Err(e) => {
                    return Err(e);
                },
            }
        }
        let ghost before: SlotPool = self.pool;
        self.pool.fix_all_blocks();
        proof {
            if root != 0 {
                trie::lemma_sem_frame(before, self.pool, self.sem@, None);
                lemma_holds(self.pool, self.sem@, s.chains@[root].den);
            } else {
                lemma_empty_holds(before, self.pool);
            }
        }
        Ok(())
    }
}

/// A pool with nothing but the root holds no keys.
pub proof fn lemma_empty_holds(before: SlotPool, pool: SlotPool)
    requires
        before.wf(),
        before.len() == 256,
        before.bases@ == set![0u32],
        before.sealed@ == 0,
        before.pending@ is None,
        !unit::has_leaf_of(before.unit(0)),
        before.fixed(0),
        pool.len() == before.len(),
        pool.grew(&before, None),
        forall|s: u32|
            #![trigger pool.units@[s as int]]
            s < pool.len() && !before.fixed(s) ==> !unit::has_leaf_of(pool.unit(s)),
        forall|s: u32| #![trigger before.fixed(s)] before.fixed(s) ==> s == 0,
    ensures
        holds(slots::words_of(pool.units@), |k: Seq<u8>| None, false),
{
    let a = slots::words_of(pool.units@);
    assert forall|i: int| 0 <= i < a.len() implies !unit::has_leaf_of(#[trigger] a[i]) by {
        let s = i as u32;
        assert(a[i] == pool.units@[s as int].0);
        if before.fixed(s) {
            assert(pool.fixed(s));
        }
    }
    assert forall|k: Seq<u8>| (#[trigger] trie::lookup(a, 0, k)) is None by {
        trie::lemma_no_leaves(a, k);
    }
}

impl<'a> DoubleArrayBuilder<'a> {
    /// A builder for these keys.
    pub fn new(keyset: Keyset<'a>) -> (res: Self)
        ensures
            res.keyset == keyset,
            res.fresh(),
    {
        DoubleArrayBuilder {
            pool: SlotPool::new(),
            labels: Vec::new(),
            table: Vec::new(),
            keyset: keyset,
            dawg: DawgBuilder::new(),
            sem: Ghost(Map::empty()),
        }
    }

    /// Builds the units of the double array.
    pub fn build<P: Progress>(self, progress: &mut P) -> (res: Result<Vec<BuildUnit>, BuildError>)
        requires
            self.keyset.wf(),
            old(progress).ready(),
            self.keyset.values is Some ==> sketch::roomy(self.keyset.seqs(), self.keyset.vals()),
            self.fresh(),
        ensures
            final(progress).ready(),
            *final(progress) == told(*old(progress), self.keyset.seqs(), self.keyset.values),
            res is Ok ==> *final(progress) == progress::heard(
                *old(progress),
                0,
                (self.keyset.seqs().len() + 1) as int,
                (self.keyset.seqs().len() + 1) as int,
            ),
            outcome(self.keyset.seqs(), self.keyset.values) == match res {
                Ok(units) => Ok(slots::words_of(units@)),
                Err(e) => Err(e.text()),
            },
            match res {
                Err(e) => {
                    ||| keyset::build_error(self.keyset.seqs(), self.keyset.values) == Some(e.text())
                    ||| {
                        &&& e.text() == error::too_large()
                        &&& words::trie_size(self.keyset.seqs(), self.keyset.seqs().len() as int) >= 0x20_0000
                    }
                },
                Ok(units) => {
                    &&& keyset::build_error(self.keyset.seqs(), self.keyset.values) is None
                    &&& words::trie_size(self.keyset.seqs(), self.keyset.seqs().len() as int) <= 29
                        ==> units@.len() == 256
                    &&& units@.len() <= 256 * (1 + words::trie_size(
                        self.keyset.seqs(),
                        self.keyset.seqs().len() as int,
                    ))
                    &&& built(slots::words_of(units@), self.keyset.seqs(), self.keyset.values)
                },
            },
    {
        let ghost given: Option<&[i32]> = self.keyset.values;
        let mut this: Self = self;
        let n: usize = this.keyset.num_keys();
        let ghost mut den: Dict = |k: Seq<u8>| None;
        if this.keyset.has_values() {
            match this.build_dawg(progress) {
                Ok(()) => {},
                Err(e) => {
                    return Err(e);
                },
            }
            proof {
                den = this.dawg.store.chains@[chains::unit_child(this.dawg.store.units@[0].0)].den;
            }
            match this.build_from_dawg() {
                Ok(()) => {},
                Err(e) => {
                    return Err(e);
                },
            }
        } else {
            match this.build_from_keyset(progress) {
                Ok(()) => {},
                Err(e) => {
                    return Err(e);
                },
            }
        }
        progress.report(n + 1, n + 1);
        proof {
            let keys = self.keyset.seqs();
            let vals = self.keyset.vals();
            let a = slots::words_of(this.pool.units@);
            if let Some(v) = given {
                if n == 0 {
                    let kept = Seq::<i32>::empty();
                    let d = words::dict_of(cut_keys(keys), kept);
                    assert forall|k: Seq<u8>| #[trigger] trie::lookup(a, 0, k) == d(k) by {}
                    assert(keeps_values(keys, v@, kept) && holds(a, d, false));
                } else {
                    let kept = choose|w: Seq<i32>| #[trigger] stands_for(den, keys, vals, w);
                    lemma_holds_same(a, den, words::dict_of(cut_keys(keys), kept), true);
                    assert(keeps_values(keys, v@, kept));
                }
            }
        }
        Ok(this.pool.units)
    }
}

/// Whether the array holds the keys, each cut before its first zero byte, and for the keys
/// without zero bytes the given values.
pub open spec fn holds_cut(a: Seq<u32>, keys: Seq<Seq<u8>>, values: Seq<i32>) -> bool {
    exists|kept: Seq<i32>|
        #[trigger] keeps_values(keys, values, kept) && holds(
            a,
            words::dict_of(cut_keys(keys), kept),
            keys.len() > 0,
        )
}

/// The array is of a size that a build can give, and holds the keys. With values, a key is
/// cut before a zero byte, and has another value then.
pub open spec fn built(a: Seq<u32>, keys: Seq<Seq<u8>>, values: Option<&[i32]>) -> bool {
    &&& 0 < a.len() <= 0x2000_0000
    &&& a.len() % 256 == 0
    &&& match values {
        None => holds(a, words::dict_of(keys, keyset::value_seq(None, keys.len())), keys.len() > 0),
        Some(v) => holds_cut(a, keys, v@),
    }
}

/// The values that an array keeps of cut keys.
pub proof fn lemma_kept(a: Seq<u32>, keys: Seq<Seq<u8>>, values: &[i32]) -> (kept: Seq<i32>)
    requires
        built(a, keys, Some(values)),
    ensures
        keeps_values(keys, values@, kept),
        holds(a, words::dict_of(cut_keys(keys), kept), keys.len() > 0),
{
    choose|kept: Seq<i32>|
        #[trigger] keeps_values(keys, values@, kept) && holds(
            a,
            words::dict_of(cut_keys(keys), kept),
            keys.len() > 0,
        )
}

/// Keys without zero bytes are held as they are.
pub proof fn lemma_built(a: Seq<u32>, keys: Seq<Seq<u8>>, values: Option<&[i32]>)
    requires
        built(a, keys, values),
        values is None || zero_free(keys),
    ensures
        holds(a, words::dict_of(keys, keyset::value_seq(values, keys.len())), keys.len() > 0),
{
    if let Some(v) = values {
        let kept = lemma_kept(a, keys, v);
        let d = words::dict_of(keys, v@);
        let e = words::dict_of(cut_keys(keys), kept);
        assert forall|i: int| 0 <= i < keys.len() implies #[trigger] cut_keys(keys)[i] == keys[i] by {
            assert(!keys[i].contains(0));
            words::lemma_cut_whole(keys[i]);
        }
        assert(cut_keys(keys) =~= keys);
        assert forall|k: Seq<u8>| #[trigger] e(k) == d(k) by {
            assert forall|i: int| 0 <= i < keys.len() implies #[trigger] kept[i] == v@[i] by {
                assert(!keys[i].contains(0));
            }
            words::lemma_first_same(keys, kept, v@, keys.len() as int, k);
        }
        lemma_holds_same(a, e, d, keys.len() > 0);
    }
}

/// Two dictionaries with the same values hold the same keys.
pub proof fn lemma_holds_same(a: Seq<u32>, e: Dict, d: Dict, any: bool)
    requires
        holds(a, e, any),
        forall|k: Seq<u8>| #[trigger] e(k) == d(k),
    ensures
        holds(a, d, any),
{
    assert forall|k: Seq<u8>| #[trigger] trie::lookup(a, 0, k) == d(k) by {
        assert(trie::lookup(a, 0, k) == e(k));
    }
    if any {
        assert forall|k: Seq<u8>| (#[trigger] trie::walk(a, 0, k)) is Some <==> trie::begins(d, k) by {
            assert(trie::walk(a, 0, k) is Some <==> trie::begins(e, k));
            if trie::begins(e, k) {
                let rest = choose|rest: Seq<u8>| (#[trigger] e(k + rest)) is Some;
                assert(d(k + rest) is Some);
            }
            if trie::begins(d, k) {
                let rest = choose|rest: Seq<u8>| (#[trigger] d(k + rest)) is Some;
                assert(e(k + rest) is Some);
            }
        }
    }
}

/// The double array of keys with values, or why there is none. The keys become a word graph
/// first.
pub open spec fn graph_outcome(keys: Seq<Seq<u8>>, values: Seq<i32>) -> Result<Seq<u32>, Seq<char>> {
    match words::sequence_error(keys, values, keys.len() as int) {
        Some(e) => Err(e),
        None => match graph::layout(sketch::graph_of(keys, values)) {
            Some(a) => Ok(a),
            None => Err(error::too_large()),
        },
    }
}

/// The double array of the keys, or why there is none.
pub open spec fn outcome(keys: Seq<Seq<u8>>, values: Option<&[i32]>) -> Result<Seq<u32>, Seq<char>> {
    match values {
        Some(v) => graph_outcome(keys, v@),
        None => direct::outcome(keys, keyset::value_seq(None, keys.len())),
    }
}

/// What `q` is once it was told of a build of keys with values: of each key that was inserted,
/// and of the end if all went well.
pub open spec fn graph_told<P: Progress>(q: P, keys: Seq<Seq<u8>>, values: Seq<i32>) -> P {
    let n = keys.len() as int;
    let r = progress::heard(q, 0, words::accepted(keys, values, n), n + 1);
    if graph_outcome(keys, values) is Ok {
        r.told((n + 1) as usize, (n + 1) as usize)
    } else {
        r
    }
}

/// What `q` is once it was told of a build: of the keys, as far as they were taken in, and of
/// the end if all went well.
pub open spec fn told<P: Progress>(q: P, keys: Seq<Seq<u8>>, values: Option<&[i32]>) -> P {
    let n = keys.len() as int;
    match values {
        Some(v) => graph_told(q, keys, v@),
        None => {
            let r = direct::told(q, keys, keyset::value_seq(None, keys.len()));
            if outcome(keys, None) is Ok {
                r.told((n + 1) as usize, (n + 1) as usize)
            } else {
                r
            }
        },
    }
}

/// What a build needs: a value for each key, and numbers for keys and graph nodes that fit.
pub open spec fn can_build(keys: Seq<&[u8]>, values: Option<&[i32]>) -> bool {
    &&& keys.len() < usize::MAX
    &&& values matches Some(v) ==> keys.len() <= v@.len() && sketch::roomy(keyset::key_seqs(keys), v@)
}

/// What a build gives: the bytes of the array, or what is wrong with the keys, or that there is
/// no room for the array.
pub open spec fn build_outcome(
    keys: Seq<&[u8]>,
    values: Option<&[i32]>,
    res: Result<Vec<u8>, BuildError>,
) -> bool {
    let seqs = keyset::key_seqs(keys);
    &&& outcome(seqs, values) == match res {
        Ok(data) => Ok(bytes::words(data@)),
        Err(e) => Err(e.text()),
    }
    &&& match res {
        Err(e) => {
            ||| keyset::build_error(seqs, values) == Some(e.text())
            ||| {
                &&& e.text() == error::too_large()
                &&& words::trie_size(seqs, keys.len() as int) >= 0x20_0000
            }
        },
        Ok(data) => {
            &&& keyset::build_error(seqs, values) is None
            &&& data@.len() % 1024 == 0
            &&& words::trie_size(seqs, keys.len() as int) <= 29 ==> data@.len() == 1024
            &&& data@.len() <= 1024 * (1 + words::trie_size(seqs, keys.len() as int))
            &&& built(bytes::words(data@), seqs, values)
        },
    }
}

/// Who hears of the progress is `p` before and `q` after the keys were built, or could not be
/// built.
pub open spec fn build_told<P: Progress>(p: P, keys: Seq<&[u8]>, values: Option<&[i32]>, ok: bool, q: P) -> bool {
    let n = keys.len() as int;
    &&& q == told(p, keyset::key_seqs(keys), values)
    &&& ok ==> q == progress::heard(p, 0, n + 1, n + 1)
}

/// Builds a double array and returns its bytes.
pub fn build_array<P: Progress>(
    keys: &[&[u8]],
    values: Option<&[i32]>,
    progress: &mut P,
) -> (res: Result<Vec<u8>, BuildError>)
    requires
        old(progress).ready(),
        can_build(keys@, values),
    ensures
        build_outcome(keys@, values, res),
        final(progress).ready(),
        build_told(*old(progress), keys@, values, res is Ok, *final(progress)),
{
    let keyset: Keyset = Keyset { keys: keys, values: values };
    let builder: DoubleArrayBuilder = DoubleArrayBuilder::new(keyset);
    let build_units: Vec<BuildUnit> = match builder.build(progress) {
        Ok(build_units) => build_units,
        Err(e) => {
            return Err(e);
        },
    };
    let mut data: Vec<u8> = Vec::with_capacity(build_units.len() * 4);
    let mut i: usize = 0;
    while i < build_units.len()
        invariant
            i <= build_units@.len() <= 0x2000_0000,
            data@.len() == 4 * i,
            forall|j: int| 0 <= j < i ==> bytes::word_at(data@, 4 * j) == #[trigger] build_units@[j].0,
        decreases build_units@.len() - i,
    {
        let ghost before: Seq<u8> = data@;
        bytes::put_word(&mut data, build_units[i].0);
        proof {
            assert forall|j: int| 0 <= j < i + 1 implies bytes::word_at(data@, 4 * j)
                == #[trigger] build_units@[j].0 by {
                if j < i {
                    assert(bytes::word_at(before, 4 * j) == build_units@[j].0);
                }
            }
        }
        i += 1;
    }
    assert(bytes::words(data@) =~= slots::words_of(build_units@));
    Ok(data)
}

/// Builds double arrays.
pub struct Builder<P> {
    pub progress: P,
}

impl Builder<Silent> {
    /// A builder that tells nobody of its progress.
    pub fn new() -> (res: Builder<Silent>)
        ensures
            res.progress.ready(),
    {
        Builder { progress: Silent }
    }
}

impl<P> Builder<P> {
    /// A builder that tells `func` of its progress: the items done and their total number.
    pub fn with_progress<F: Fn(usize, usize)>(self, func: F) -> (res: Builder<Callback<F>>)
        ensures
            res.progress.func == func,
            res.progress.calls@ == Seq::<(usize, usize)>::empty(),
    {
        Builder { progress: Callback { func: func, calls: Ghost(Seq::empty()) } }
    }
}

impl<P: Progress> Builder<P> {
    /// Builds a double array from keys in ascending order, and returns its bytes.
    ///
    /// Without values, the values of the keys are their positions, and no key may have a zero
    /// byte. With values, none of which may be negative, a key is stored up to its first zero
    /// byte.
    pub fn build(&mut self, keys: &[&[u8]], values: Option<&[i32]>) -> (res: Result<Vec<u8>, BuildError>)
        requires
            old(self).progress.ready(),
            can_build(keys@, values),
        ensures
            build_outcome(keys@, values, res),
            final(self).progress.ready(),
            build_told(old(self).progress, keys@, values, res is Ok, final(self).progress),
    {
        build_array(keys, values, &mut self.progress)
    }
}

} // verus!
