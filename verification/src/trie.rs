//! What a double array says: the paths from a node and the values at their ends.

use vstd::prelude::*;
use crate::slots::SlotPool;
use crate::unit;

verus! {

/// A dictionary: the value of each key that it holds.
pub type Dict = spec_fn(Seq<u8>) -> Option<i32>;

/// The key `k` with the byte `c` in front.
pub open spec fn cons(c: u8, k: Seq<u8>) -> Seq<u8> {
    seq![c] + k
}

/// Units at or beyond this bound cannot be reached.
pub open spec fn bound(a: Seq<u32>) -> u32 {
    a.len() as u32
}

/// The base of the children of the node at `pos`.
pub open spec fn base(a: Seq<u32>, pos: int) -> u32 {
    (pos as u32) ^ unit::offset_of(a[pos])
}

/// The child of the node at `pos` under the byte `c`.
pub open spec fn step(a: Seq<u32>, pos: int, c: u8) -> Option<int> {
    let next = unit::slot(base(a, pos), c);
    if next < bound(a) && unit::label_of(a[next as int]) == c as u32 {
        Some(next as int)
    } else {
        None
    }
}

/// The node that `key` leads to from the node at `pos`.
pub open spec fn walk(a: Seq<u32>, pos: int, key: Seq<u8>) -> Option<int>
    decreases key.len(),
{
    if key.len() == 0 {
        Some(pos)
    } else {
        match walk(a, pos, key.drop_last()) {
            Some(p) => step(a, p, key.last()),
            None => None,
        }
    }
}

/// The value at the node at `pos`, provided that its leaf lies below `limit`.
pub open spec fn leaf_within(a: Seq<u32>, pos: int, limit: int) -> Option<i32> {
    if unit::has_leaf_of(a[pos]) && base(a, pos) < limit {
        Some(unit::value_of(a[base(a, pos) as int]))
    } else {
        None
    }
}

/// The value of `key` below the node at `pos`.
pub open spec fn lookup(a: Seq<u32>, pos: int, key: Seq<u8>) -> Option<i32> {
    match walk(a, pos, key) {
        Some(p) => leaf_within(a, p, bound(a) as int),
        None => None,
    }
}

/// The array gives every key the value that it has in `d`.
pub open spec fn reads_as(a: Seq<u32>, d: Dict) -> bool {
    forall|k: Seq<u8>| #[trigger] lookup(a, 0, k) == d(k)
}

/// The keys that lead somewhere in the array are those with which a key of `d` begins.
pub open spec fn walks_as(a: Seq<u32>, d: Dict) -> bool {
    forall|k: Seq<u8>| (#[trigger] walk(a, 0, k)) is Some <==> begins(d, k)
}

/// Whether some key of `d` begins with `k`.
pub open spec fn begins(d: Dict, k: Seq<u8>) -> bool {
    exists|rest: Seq<u8>| (#[trigger] d(k + rest)) is Some
}

/// An array in which no node ends a key has no keys.
pub proof fn lemma_no_leaves(a: Seq<u32>, key: Seq<u8>)
    requires
        a.len() > 0,
        forall|i: int| 0 <= i < a.len() ==> !unit::has_leaf_of(#[trigger] a[i]),
        a.len() <= u32::MAX,
    ensures
        lookup(a, 0, key) is None,
{
    if walk(a, 0, key) is Some && key.len() > 0 {
        lemma_walk_bounds(a, 0, key);
    }
}

/// A walk can be taken byte by byte from the front.
pub proof fn lemma_walk_cons(a: Seq<u32>, pos: int, c: u8, k: Seq<u8>)
    ensures
        walk(a, pos, cons(c, k)) == match step(a, pos, c) {
            Some(p) => walk(a, p, k),
            None => None,
        },
    decreases k.len(),
{
    let key = cons(c, k);
    assert(key.drop_last() =~= if k.len() == 0 {
        Seq::<u8>::empty()
    } else {
        cons(c, k.drop_last())
    });
    if k.len() == 0 {
        assert(walk(a, pos, key.drop_last()) == Some(pos));
        assert(key.last() == c);
    } else {
        lemma_walk_cons(a, pos, c, k.drop_last());
        assert(key.last() == k.last());
    }
}

/// A walk along two keys, one after the other.
pub proof fn lemma_walk_concat(a: Seq<u32>, pos: int, k: Seq<u8>, l: Seq<u8>)
    ensures
        walk(a, pos, k + l) == match walk(a, pos, k) {
            Some(p) => walk(a, p, l),
            None => None,
        },
    decreases l.len(),
{
    if l.len() == 0 {
        assert(k + l =~= k);
    } else {
        assert((k + l).drop_last() =~= k + l.drop_last());
        lemma_walk_concat(a, pos, k, l.drop_last());
    }
}

/// A walk that gets through `key` gets through every prefix of it.
pub proof fn lemma_walk_prefix(a: Seq<u32>, pos: int, key: Seq<u8>, n: int)
    requires
        0 <= n <= key.len(),
        walk(a, pos, key) is Some,
    ensures
        walk(a, pos, key.take(n)) is Some,
{
    assert(key =~= key.take(n) + key.skip(n));
    lemma_walk_concat(a, pos, key.take(n), key.skip(n));
}

/// All but the start of a walk lies within bounds.
pub proof fn lemma_walk_bounds(a: Seq<u32>, pos: int, key: Seq<u8>)
    requires
        key.len() > 0,
        walk(a, pos, key) is Some,
    ensures
        0 <= walk(a, pos, key)->0 < bound(a),
{
}

/// The base of a node of a pool.
pub open spec fn base_of(pool: SlotPool, id: u32) -> u32 {
    id ^ unit::offset_of(pool.unit(id))
}

/// The child of a node under `c` stands for the keys that go on with `c`.
pub open spec fn child_ok(pool: SlotPool, sem: Map<u32, Dict>, d: Dict, b: u32, c: u8) -> bool {
    if c != 0 && pool.kid(b, c) {
        &&& sem.contains_key(unit::slot(b, c))
        &&& forall|k: Seq<u8>| #[trigger] d(cons(c, k)) == sem[unit::slot(b, c)](k)
    } else {
        forall|k: Seq<u8>| (#[trigger] d(cons(c, k))) is None
    }
}

/// The children at the base `b` stand for the dictionary `d`.
pub open spec fn base_ok(pool: SlotPool, sem: Map<u32, Dict>, d: Dict, b: u32) -> bool {
    &&& pool.bases@.contains(b)
    &&& b < pool.len()
    &&& if pool.kid(b, 0) {
        unit::is_leaf_unit(pool.unit(b)) && d(Seq::empty()) == Some(unit::value_of(pool.unit(b)))
    } else {
        d(Seq::empty()) is None
    }
    &&& forall|c: u8| #[trigger] child_ok(pool, sem, d, b, c)
    &&& exists|k: Seq<u8>| (#[trigger] d(k)) is Some
}

/// Node `id` stands for the dictionary `sem[id]`.
pub open spec fn node_ok(pool: SlotPool, sem: Map<u32, Dict>, id: u32) -> bool {
    &&& pool.fixed(id)
    &&& !unit::is_leaf_unit(pool.unit(id))
    &&& unit::has_leaf_of(pool.unit(id)) == pool.kid(base_of(pool, id), 0)
    &&& base_ok(pool, sem, sem[id], base_of(pool, id))
}

/// Every node of `sem` stands for its dictionary.
pub open spec fn sem_ok(pool: SlotPool, sem: Map<u32, Dict>) -> bool {
    forall|id: u32| sem.contains_key(id) ==> #[trigger] node_ok(pool, sem, id)
}

/// The nodes of `sem` stand in `more` for the same dictionaries.
pub open spec fn extends(more: Map<u32, Dict>, sem: Map<u32, Dict>) -> bool {
    forall|id: u32| #[trigger] sem.contains_key(id) ==> more.contains_key(id) && more[id] == sem[id]
}

/// The children of a base that was handed out do not change as the pool grows.
pub proof fn lemma_kid_stable(old: SlotPool, new: SlotPool, d: Option<u32>, b: u32, c: u8)
    requires
        new.grew(&old, d),
        old.bases@.contains(b),
    ensures
        new.kid(b, c) == old.kid(b, c),
{
    let t = unit::slot(b, c);
    unit::lemma_slot_twice(b, c);
    if old.fixed(t) {
        assert(new.fixed(t));
    } else if new.fixed(t) {
        assert(!old.bases@.contains(unit::slot(t, unit::tag_of(new.unit(t)))));
    }
}

/// A base keeps its meaning as the pool grows.
pub proof fn lemma_base_frame(
    old: SlotPool,
    new: SlotPool,
    sem: Map<u32, Dict>,
    more: Map<u32, Dict>,
    d: Dict,
    b: u32,
    ex: Option<u32>,
)
    requires
        base_ok(old, sem, d, b),
        new.grew(&old, ex),
        ex matches Some(e) ==> !unit::is_leaf_unit(old.unit(e)),
        extends(more, sem),
    ensures
        base_ok(new, more, d, b),
{
    lemma_kid_stable(old, new, ex, b, 0);
    unit::lemma_slot_zero(b);
    if old.kid(b, 0) {
        assert(new.fixed(b));
    }
    assert forall|c: u8| #[trigger] child_ok(new, more, d, b, c) by {
        lemma_kid_stable(old, new, ex, b, c);
        assert(child_ok(old, sem, d, b, c));
        if c != 0 && old.kid(b, c) {
            let t = unit::slot(b, c);
            assert(sem.contains_key(t));
        }
    }
}

/// All nodes keep their meaning as the pool grows, as long as they are not written.
pub proof fn lemma_sem_frame(old: SlotPool, new: SlotPool, sem: Map<u32, Dict>, ex: Option<u32>)
    requires
        sem_ok(old, sem),
        new.grew(&old, ex),
        ex matches Some(e) ==> !unit::is_leaf_unit(old.unit(e)) && !sem.contains_key(e),
    ensures
        sem_ok(new, sem),
{
    assert forall|id: u32| sem.contains_key(id) implies #[trigger] node_ok(new, sem, id) by {
        assert(node_ok(old, sem, id));
        assert(new.fixed(id));
        lemma_base_frame(old, new, sem, sem, sem[id], base_of(old, id), ex);
        lemma_kid_stable(old, new, ex, base_of(old, id), 0);
    }
}

/// A node whose children have their meaning gets its own.
pub proof fn lemma_sem_add(pool: SlotPool, sem: Map<u32, Dict>, id: u32, d: Dict)
    requires
        sem_ok(pool, sem),
        !sem.contains_key(id),
        pool.fixed(id),
        !unit::is_leaf_unit(pool.unit(id)),
        unit::has_leaf_of(pool.unit(id)) == pool.kid(base_of(pool, id), 0),
        base_ok(pool, sem, d, base_of(pool, id)),
    ensures
        sem_ok(pool, sem.insert(id, d)),
{
    let more = sem.insert(id, d);
    assert forall|j: u32| more.contains_key(j) implies #[trigger] node_ok(pool, more, j) by {
        let b = base_of(pool, j);
        if j != id {
            assert(node_ok(pool, sem, j));
        }
        assert forall|c: u8| #[trigger] child_ok(pool, more, more[j], b, c) by {
            assert(child_ok(pool, sem, more[j], b, c));
        }
    }
}

/// In a finished pool a step leads exactly to a child that is a node.
pub proof fn lemma_step_kid(pool: SlotPool, sem: Map<u32, Dict>, a: Seq<u32>, id: u32, c: u8)
    requires
        pool.shape_wf(),
        sem_ok(pool, sem),
        sem.contains_key(id),
        a.len() == pool.len(),
        forall|i: int| 0 <= i < a.len() ==> #[trigger] a[i] == pool.units@[i].0,
        forall|s: u32| #![trigger pool.fixed(s)] s < pool.len() ==> pool.fixed(s),
    ensures
        step(a, id as int, c) == (if c != 0 && pool.kid(base_of(pool, id), c) {
            Some(unit::slot(base_of(pool, id), c) as int)
        } else {
            None
        }),
{
    assert(node_ok(pool, sem, id));
    let b = base_of(pool, id);
    let t = unit::slot(b, c);
    unit::lemma_slot_block(b, c);
    unit::lemma_slot_zero(b);
    assert(t < pool.len());
    assert(pool.fixed(t));
    assert(a[id as int] == pool.unit(id));
    assert(a[t as int] == pool.unit(t));
    unit::lemma_label_tag(pool.unit(t), c);
    assert(child_ok(pool, sem, sem[id], b, c));
    if c != 0 && pool.kid(b, c) {
        assert(node_ok(pool, sem, t));
    }
}

/// A finished pool reads back as the dictionaries that its nodes stand for.
pub proof fn lemma_reads(pool: SlotPool, sem: Map<u32, Dict>, a: Seq<u32>, id: u32, key: Seq<u8>)
    requires
        pool.shape_wf(),
        sem_ok(pool, sem),
        sem.contains_key(id),
        a.len() == pool.len(),
        forall|i: int| 0 <= i < a.len() ==> #[trigger] a[i] == pool.units@[i].0,
        forall|s: u32| #![trigger pool.fixed(s)] s < pool.len() ==> pool.fixed(s),
    ensures
        lookup(a, id as int, key) == sem[id](key),
        walk(a, id as int, key) is Some <==> begins(sem[id], key),
    decreases key.len(),
{
    assert(node_ok(pool, sem, id));
    let b = base_of(pool, id);
    let d = sem[id];
    assert(a[id as int] == pool.unit(id));
    if key.len() == 0 {
        assert(key =~= Seq::empty());
        assert(a[b as int] == pool.unit(b));
        let k = choose|k: Seq<u8>| (#[trigger] d(k)) is Some;
        assert(key + k =~= k);
        assert(d(key + k) is Some);
    } else {
        let c = key[0];
        let rest = key.drop_first();
        assert(key =~= cons(c, rest));
        lemma_walk_cons(a, id as int, c, rest);
        lemma_step_kid(pool, sem, a, id, c);
        assert(child_ok(pool, sem, d, b, c));
        if c != 0 && pool.kid(b, c) {
            let t = unit::slot(b, c);
            lemma_reads(pool, sem, a, t, rest);
            if exists|k: Seq<u8>| (#[trigger] d(key + k)) is Some {
                let k = choose|k: Seq<u8>| (#[trigger] d(key + k)) is Some;
                assert(key + k =~= cons(c, rest + k));
                assert(sem[t](rest + k) is Some);
            }
            if exists|k: Seq<u8>| (#[trigger] sem[t](rest + k)) is Some {
                let k = choose|k: Seq<u8>| (#[trigger] sem[t](rest + k)) is Some;
                assert(key + k =~= cons(c, rest + k));
                assert(d(key + k) is Some);
            }
        } else {
            assert forall|k: Seq<u8>| (#[trigger] d(key + k)) is None by {
                assert(key + k =~= cons(c, rest + k));
            }
        }
    }
}

} // verus!
