//! Placing sorted keys directly, without a word graph.

use vstd::prelude::*;
use crate::builder;
use crate::builder::DoubleArrayBuilder;
use crate::error;
use crate::error::BuildError;
use crate::keyset;
use crate::plan;
use crate::plan::Plan;
use crate::progress;
use crate::progress::Progress;
use crate::slots;
use crate::slots::{Id, SlotPool};
use crate::trie;
use crate::trie::Dict;
use crate::unit;
use crate::words;

verus! {

/// Whether `key` begins with `p`.
pub open spec fn has_prefix(key: Seq<u8>, p: Seq<u8>) -> bool {
    p.len() <= key.len() && key.take(p.len() as int) == p
}

/// The keys from `begin` to `end` are those that begin with `p`.
pub open spec fn cover(keys: Seq<Seq<u8>>, begin: int, end: int, p: Seq<u8>) -> bool {
    &&& 0 <= begin < end <= keys.len()
    &&& forall|i: int|
        0 <= i < keys.len() ==> ((begin <= i < end) <==> #[trigger] has_prefix(keys[i], p))
}

/// Whether one of the keys from `begin` to `end` has the byte `c` at `depth`.
pub open spec fn has_byte(keys: Seq<Seq<u8>>, begin: int, end: int, depth: int, c: u8) -> bool {
    exists|i: int| begin <= i < end && #[trigger] keyset::byte_at(keys, i, depth) == c
}

/// The bytes at `depth` of the keys from `begin` up to `n`, each once in a row.
pub open spec fn labels_of(keys: Seq<Seq<u8>>, begin: int, n: int, depth: int) -> Seq<u8>
    decreases n - begin,
{
    if n <= begin {
        Seq::empty()
    } else {
        let labels = labels_of(keys, begin, n - 1, depth);
        let c = keyset::byte_at(keys, n - 1, depth);
        if labels.len() > 0 && labels.last() == c {
            labels
        } else {
            labels.push(c)
        }
    }
}

/// The end of the run of keys from `begin` on that have no byte at `depth`, or a zero.
pub open spec fn ended(keys: Seq<Seq<u8>>, begin: int, end: int, depth: int) -> int
    decreases end - begin,
{
    if begin >= end || keyset::byte_at(keys, begin, depth) != 0 {
        begin
    } else {
        ended(keys, begin + 1, end, depth)
    }
}

/// The run ends at the first key with another byte.
proof fn lemma_ended(keys: Seq<Seq<u8>>, begin: int, end: int, depth: int, z: int)
    requires
        begin <= z <= end,
        forall|j: int| begin <= j < z ==> #[trigger] keyset::byte_at(keys, j, depth) == 0,
        z < end ==> keyset::byte_at(keys, z, depth) != 0,
    ensures
        ended(keys, begin, end, depth) == z,
    decreases z - begin,
{
    if begin < z {
        assert(keyset::byte_at(keys, begin, depth) == 0);
        lemma_ended(keys, begin + 1, end, depth, z);
    }
}

/// The value of the leaf that the keys from `begin` on get at `depth`, if they get one.
pub open spec fn leaf_value(keys: Seq<Seq<u8>>, values: Seq<i32>, begin: int, depth: int) -> i32 {
    if keyset::byte_at(keys, begin, depth) == 0 {
        values[begin]
    } else {
        (-1) as i32
    }
}

/// Where the tree of the keys from `begin` to `end`, which agree on their first `depth` bytes,
/// goes below the node `id`, or why it cannot be placed: what is wrong with these keys at this
/// depth, or that there is no room for the node, or what comes up in the trees below. No key
/// has more than `depth + height` bytes.
pub open spec fn tree_plan(
    p: Plan,
    keys: Seq<Seq<u8>>,
    values: Seq<i32>,
    begin: int,
    end: int,
    depth: int,
    id: u32,
    height: nat,
) -> Result<Plan, Seq<char>>
    decreases height, 1int, end - begin,
{
    match keyset::scan_error(keys, values, begin, end, depth) {
        Some(e) => Err(e),
        None => match p.arrange(
            id,
            labels_of(keys, begin, end, depth),
            leaf_value(keys, values, begin, depth),
        ) {
            Some((q, b)) => trees_plan(q, keys, values, begin, end, depth, b, height),
            None => Err(error::too_large()),
        },
    }
}

/// Where the trees below the base `b` go, one after the other.
pub open spec fn trees_plan(
    p: Plan,
    keys: Seq<Seq<u8>>,
    values: Seq<i32>,
    from: int,
    end: int,
    depth: int,
    b: u32,
    height: nat,
) -> Result<Plan, Seq<char>>
    decreases height, 0int, end - from,
{
    let c = keyset::byte_at(keys, from, depth);
    if from >= end || (c != 0 && height == 0) {
        Ok(p)
    } else if c == 0 {
        trees_plan(p, keys, values, from + 1, end, depth, b, height)
    } else {
        proof {
            keyset::lemma_run_end(keys, from, from + 1, end, depth);
        }
        let i = keyset::run_end(keys, from, from + 1, end, depth);
        match tree_plan(p, keys, values, from, i, depth + 1, unit::slot(b, c), (height - 1) as nat) {
            Ok(q) => trees_plan(q, keys, values, i, end, depth, b, height),
            Err(e) => Err(e),
        }
    }
}

/// The double array of keys that are placed directly, or why there is none.
pub open spec fn outcome(keys: Seq<Seq<u8>>, values: Seq<i32>) -> Result<Seq<u32>, Seq<char>> {
    let n = keys.len() as int;
    if n == 0 {
        Ok(plan::finished(plan::planted()))
    } else {
        match tree_plan(plan::planted(), keys, values, 0, n, 0, 0, keyset::max_len(keys, n)) {
            Ok(p) => Ok(plan::finished(p)),
            Err(e) => Err(e),
        }
    }
}

/// Whether the end of the `i`th key is told, if nothing is wrong with the keys from `begin` on
/// before it: it ends at `depth`, and its value is not negative and that of the first such key.
pub open spec fn ends_at(keys: Seq<Seq<u8>>, values: Seq<i32>, begin: int, i: int, depth: int) -> bool {
    &&& keyset::byte_at(keys, i, depth) == 0
    &&& keys[i].len() <= depth
    &&& values[i] >= 0
    &&& i > begin && keyset::byte_at(keys, begin, depth) == 0 ==> values[begin] == values[i]
}

/// What `q` is once it was told of the keys from `begin` up to `n` that end at `depth`, as far
/// as nothing is wrong with the keys before.
pub open spec fn scan_told<P: Progress>(
    q: P,
    keys: Seq<Seq<u8>>,
    values: Seq<i32>,
    begin: int,
    n: int,
    depth: int,
) -> P
    decreases n - begin,
{
    if n <= begin {
        q
    } else {
        let r = scan_told(q, keys, values, begin, n - 1, depth);
        if keyset::scan_error(keys, values, begin, n - 1, depth) is None && ends_at(
            keys,
            values,
            begin,
            n - 1,
            depth,
        ) {
            r.told(n as usize, (keys.len() + 1) as usize)
        } else {
            r
        }
    }
}

/// What `q` is once it was told of the keys of a tree, as far as the tree can be placed.
pub open spec fn tree_told<P: Progress>(
    q: P,
    p: Plan,
    keys: Seq<Seq<u8>>,
    values: Seq<i32>,
    begin: int,
    end: int,
    depth: int,
    id: u32,
    height: nat,
) -> P
    decreases height, 1int, end - begin,
{
    let r = scan_told(q, keys, values, begin, end, depth);
    match keyset::scan_error(keys, values, begin, end, depth) {
        Some(_) => r,
        None => match p.arrange(
            id,
            labels_of(keys, begin, end, depth),
            leaf_value(keys, values, begin, depth),
        ) {
            Some((next, b)) => trees_told(r, next, keys, values, begin, end, depth, b, height),
            None => r,
        },
    }
}

/// What `q` is once it was told of the keys of the trees below the base `b`, one tree after
/// the other, as far as they can be placed.
pub open spec fn trees_told<P: Progress>(
    q: P,
    p: Plan,
    keys: Seq<Seq<u8>>,
    values: Seq<i32>,
    from: int,
    end: int,
    depth: int,
    b: u32,
    height: nat,
) -> P
    decreases height, 0int, end - from,
{
    let c = keyset::byte_at(keys, from, depth);
    if from >= end || (c != 0 && height == 0) {
        q
    } else if c == 0 {
        trees_told(q, p, keys, values, from + 1, end, depth, b, height)
    } else {
        proof {
            keyset::lemma_run_end(keys, from, from + 1, end, depth);
        }
        let i = keyset::run_end(keys, from, from + 1, end, depth);
        let below = (height - 1) as nat;
        let r = tree_told(q, p, keys, values, from, i, depth + 1, unit::slot(b, c), below);
        match tree_plan(p, keys, values, from, i, depth + 1, unit::slot(b, c), below) {
            Ok(next) => trees_told(r, next, keys, values, i, end, depth, b, height),
            Err(_) => r,
        }
    }
}

/// What `q` is once it was told of the keys, as far as they can be placed.
pub open spec fn told<P: Progress>(q: P, keys: Seq<Seq<u8>>, values: Seq<i32>) -> P {
    let n = keys.len() as int;
    if n == 0 {
        q
    } else {
        tree_told(q, plan::planted(), keys, values, 0, n, 0, 0, keyset::max_len(keys, n))
    }
}

/// Nothing is told behind an error.
proof fn lemma_scan_told<P: Progress>(
    q: P,
    keys: Seq<Seq<u8>>,
    values: Seq<i32>,
    begin: int,
    m: int,
    n: int,
    depth: int,
)
    requires
        begin <= m <= n,
        keyset::scan_error(keys, values, begin, m, depth) is Some,
    ensures
        scan_told(q, keys, values, begin, n, depth) == scan_told(q, keys, values, begin, m, depth),
    decreases n - m,
{
    if m < n {
        lemma_scan_told(q, keys, values, begin, m, n - 1, depth);
        keyset::lemma_scan_stays(keys, values, begin, m, n - 1, depth);
    }
}

/// Keys cannot be placed if something is wrong with them, or if there is no room for them.
pub proof fn lemma_tree_plan(
    p: Plan,
    keys: Seq<Seq<u8>>,
    values: Seq<i32>,
    begin: int,
    end: int,
    depth: int,
    id: u32,
    height: nat,
)
    ensures
        match tree_plan(p, keys, values, begin, end, depth, id, height) {
            Ok(_) => keyset::tree_error(keys, values, begin, end, depth, height) is None,
            Err(e) => e == error::too_large() || keyset::tree_error(keys, values, begin, end, depth, height) == Some(
                e,
            ),
        },
    decreases height, 1int, end - begin,
{
    if keyset::scan_error(keys, values, begin, end, depth) is None {
        if let Some((q, b)) = p.arrange(
            id,
            labels_of(keys, begin, end, depth),
            leaf_value(keys, values, begin, depth),
        ) {
            lemma_trees_plan(q, keys, values, begin, end, depth, b, height);
        }
    }
}

proof fn lemma_trees_plan(
    p: Plan,
    keys: Seq<Seq<u8>>,
    values: Seq<i32>,
    from: int,
    end: int,
    depth: int,
    b: u32,
    height: nat,
)
    ensures
        match trees_plan(p, keys, values, from, end, depth, b, height) {
            Ok(_) => keyset::trees_error(keys, values, from, end, depth, height) is None,
            Err(e) => e == error::too_large() || keyset::trees_error(keys, values, from, end, depth, height) == Some(
                e,
            ),
        },
    decreases height, 0int, end - from,
{
    let c = keyset::byte_at(keys, from, depth);
    if from < end {
        if c == 0 {
            lemma_trees_plan(p, keys, values, from + 1, end, depth, b, height);
        } else if height > 0 {
            keyset::lemma_run_end(keys, from, from + 1, end, depth);
            let i = keyset::run_end(keys, from, from + 1, end, depth);
            let below = (height - 1) as nat;
            lemma_tree_plan(p, keys, values, from, i, depth + 1, unit::slot(b, c), below);
            if let Ok(q) = tree_plan(p, keys, values, from, i, depth + 1, unit::slot(b, c), below) {
                lemma_trees_plan(q, keys, values, i, end, depth, b, height);
            }
        }
    }
}

/// The edges that the `i`th key adds to the tree of the keys from `begin` on.
pub open spec fn weight_at(keys: Seq<Seq<u8>>, begin: int, i: int, depth: int) -> int {
    if i == begin {
        keys[i].len() + 1 - depth
    } else {
        words::size_step(keys, i) as int
    }
}

/// The edges of the tree of the keys from `begin` to `n`, below `depth`.
pub open spec fn span(keys: Seq<Seq<u8>>, begin: int, n: int, depth: int) -> int
    decreases n - begin,
{
    if n <= begin {
        0
    } else {
        span(keys, begin, n - 1, depth) + weight_at(keys, begin, n - 1, depth)
    }
}

/// The whole tree.
proof fn lemma_span_all(keys: Seq<Seq<u8>>, n: int)
    requires
        0 <= n <= keys.len(),
    ensures
        span(keys, 0, n, 0) == words::trie_size(keys, n),
    decreases n,
{
    if n > 0 {
        lemma_span_all(keys, n - 1);
    }
}

/// More keys have no fewer edges.
proof fn lemma_span_monotonic(keys: Seq<Seq<u8>>, begin: int, m: int, n: int, depth: int)
    requires
        begin < m <= n,
    ensures
        span(keys, begin, m, depth) <= span(keys, begin, n, depth),
    decreases n - m,
{
    if m < n {
        lemma_span_monotonic(keys, begin, m, n - 1, depth);
    }
}

/// The edges of a subtree, and the one that leads to it.
proof fn lemma_span_split(keys: Seq<Seq<u8>>, begin: int, from: int, i: int, depth: int)
    requires
        0 <= begin <= from < i <= keys.len(),
        from > begin ==> words::lcp(keys[from - 1].push(0), keys[from].push(0)) == depth,
    ensures
        span(keys, begin, i, depth) == span(keys, begin, from, depth) + span(keys, from, i, depth + 1) + 1,
    decreases i - from,
{
    if i == from + 1 {
        assert(span(keys, from, from, depth + 1) == 0);
        if from > begin {
            words::lemma_lcp(keys[from - 1].push(0), keys[from].push(0));
        }
    } else {
        lemma_span_split(keys, begin, from, i - 1, depth);
    }
}

/// The labels end with the byte of the last key.
proof fn lemma_labels_last(keys: Seq<Seq<u8>>, begin: int, n: int, depth: int)
    requires
        begin < n,
    ensures
        labels_of(keys, begin, n, depth).len() > 0,
        labels_of(keys, begin, n, depth).last() == keyset::byte_at(keys, n - 1, depth),
{
}

/// A run of keys with the same byte has one label.
proof fn lemma_labels_run(keys: Seq<Seq<u8>>, begin: int, from: int, i: int, depth: int)
    requires
        begin <= from < i,
        from > begin ==> keyset::byte_at(keys, from - 1, depth) != keyset::byte_at(keys, from, depth),
        forall|j: int|
            from <= j < i ==> #[trigger] keyset::byte_at(keys, j, depth) == keyset::byte_at(keys, from, depth),
    ensures
        labels_of(keys, begin, i, depth).len() == labels_of(keys, begin, from, depth).len() + 1,
    decreases i - from,
{
    if from > begin {
        lemma_labels_last(keys, begin, from, depth);
    }
    if i > from + 1 {
        lemma_labels_run(keys, begin, from, i - 1, depth);
        lemma_labels_last(keys, begin, i - 1, depth);
        assert(keyset::byte_at(keys, i - 1, depth) == keyset::byte_at(keys, from, depth));
        assert(keyset::byte_at(keys, i - 2, depth) == keyset::byte_at(keys, from, depth));
    }
}

/// Every label has an edge.
proof fn lemma_labels_span(
    keys: Seq<Seq<u8>>,
    values: Seq<i32>,
    begin: int,
    end: int,
    p: Seq<u8>,
    i: int,
    n: int,
)
    requires
        cover(keys, begin, end, p),
        keyset::scan_error(keys, values, begin, end, p.len() as int) is None,
        begin <= i <= n <= end,
    ensures
        labels_of(keys, begin, n, p.len() as int).len() - labels_of(keys, begin, i, p.len() as int).len() <= span(
            keys,
            begin,
            n,
            p.len() as int,
        ) - span(keys, begin, i, p.len() as int),
    decreases n - i,
{
    let d = p.len() as int;
    if i < n {
        lemma_labels_span(keys, values, begin, end, p, i, n - 1);
        let j = n - 1;
        assert(has_prefix(keys[j], p));
        keyset::lemma_scan(keys, values, begin, end, d, j);
        if j > begin {
            lemma_labels_last(keys, begin, j, d);
            assert(has_prefix(keys[j - 1], p));
            keyset::lemma_scan(keys, values, begin, end, d, j - 1);
            let (x, y) = (keys[j - 1].push(0), keys[j].push(0));
            words::lemma_lcp(x, y);
            if keyset::byte_at(keys, j - 1, d) != keyset::byte_at(keys, j, d) {
                assert(x[d] == keyset::byte_at(keys, j - 1, d));
                assert(y[d] == keyset::byte_at(keys, j, d));
                assert(words::lcp(x, y) <= d);
            }
        }
    }
}

/// A node of a small tree needs no other block.
proof fn lemma_arrange_small(
    pool: SlotPool,
    dic_id: u32,
    keys: Seq<Seq<u8>>,
    values: Seq<i32>,
    begin: int,
    end: int,
    p: Seq<u8>,
    k: int,
)
    requires
        cover(keys, begin, end, p),
        keyset::scan_error(keys, values, begin, end, p.len() as int) is None,
        pool.plan().small(k),
        pool.fixed(dic_id),
        0 <= k,
        k + span(keys, begin, end, p.len() as int) <= 30,
    ensures
        pool.plan().arrange(
            dic_id,
            labels_of(keys, begin, end, p.len() as int),
            leaf_value(keys, values, begin, p.len() as int),
        ) matches Some((q, b)) && q.small(k + labels_of(keys, begin, end, p.len() as int).len()),
{
    let d = p.len() as int;
    let labels = labels_of(keys, begin, end, d);
    lemma_labels_span(keys, values, begin, end, p, begin, end);
    lemma_labels_last(keys, begin, end, d);
    assert(span(keys, begin, begin, d) == 0);
    plan::lemma_small_product(k, labels.len() as int);
    plan::lemma_arrange_small(pool.plan(), dic_id, labels, leaf_value(keys, values, begin, d), k);
}

/// The part of the keys that begin with `p` whose next byte is that of the key `from`.
pub proof fn lemma_cover_child(
    keys: Seq<Seq<u8>>,
    values: Seq<i32>,
    begin: int,
    end: int,
    p: Seq<u8>,
    from: int,
    i: int,
)
    requires
        cover(keys, begin, end, p),
        keyset::scan_error(keys, values, begin, end, p.len() as int) is None,
        begin <= from < i <= end,
        keyset::byte_at(keys, from, p.len() as int) != 0,
        forall|j: int|
            from <= j < i ==> #[trigger] keyset::byte_at(keys, j, p.len() as int) == keyset::byte_at(
                keys,
                from,
                p.len() as int,
            ),
        i < end ==> keyset::byte_at(keys, i, p.len() as int) != keyset::byte_at(keys, from, p.len() as int),
        from > begin ==> keyset::byte_at(keys, from - 1, p.len() as int) != keyset::byte_at(
            keys,
            from,
            p.len() as int,
        ),
    ensures
        cover(keys, from, i, p.push(keyset::byte_at(keys, from, p.len() as int))),
        from > begin ==> words::lcp(keys[from - 1].push(0), keys[from].push(0)) == p.len(),
        forall|j: int| from <= j < i ==> #[trigger] keys[j].len() > p.len(),
{
    let d = p.len() as int;
    let c = keyset::byte_at(keys, from, d);
    let q = p.push(c);
    assert forall|j: int| 0 <= j < keys.len() implies ((from <= j < i) <==> #[trigger] has_prefix(keys[j], q)) by {
        if from <= j < i {
            assert(has_prefix(keys[j], p));
            assert(keyset::byte_at(keys, j, d) == c);
            assert(keys[j].take(d + 1) =~= q) by {
                assert forall|x: int| 0 <= x < d implies keys[j][x] == p[x] by {
                    assert(keys[j].take(d)[x] == p[x]);
                }
            }
        }
        if has_prefix(keys[j], q) {
            assert(keys[j].take(d) =~= p) by {
                assert forall|x: int| 0 <= x < d implies keys[j][x] == p[x] by {
                    assert(keys[j].take(d + 1)[x] == q[x]);
                }
            }
            assert(has_prefix(keys[j], p));
            assert(keys[j].take(d + 1)[d] == c);
            assert(keyset::byte_at(keys, j, d) == c);
            if j < from {
                keyset::lemma_scan_sorted(keys, values, begin, end, d, j, from - 1);
                keyset::lemma_scan_sorted(keys, values, begin, end, d, from - 1, from);
            }
            if j >= i {
                keyset::lemma_scan_sorted(keys, values, begin, end, d, i, j);
                keyset::lemma_scan_sorted(keys, values, begin, end, d, from, i);
            }
        }
    }
    assert forall|j: int| from <= j < i implies #[trigger] keys[j].len() > p.len() by {
        assert(keyset::byte_at(keys, j, d) == c);
    }
    if from > begin {
        let (x, y) = (keys[from - 1], keys[from]);
        assert(has_prefix(x, p) && has_prefix(y, p));
        keyset::lemma_scan(keys, values, begin, end, d, from - 1);
        assert forall|z: int| 0 <= z < d implies #[trigger] x.push(0)[z] == y.push(0)[z] by {
            assert(x.take(d)[z] == p[z]);
            assert(y.take(d)[z] == p[z]);
        }
        assert(x.push(0)[d] == keyset::byte_at(keys, from - 1, d));
        assert(y.push(0)[d] == c);
        words::lemma_lcp_is(x.push(0), y.push(0), d as nat);
    }
}

/// The keys that begin with `p`, without `p`.
pub open spec fn below(keys: Seq<Seq<u8>>, values: Seq<i32>, p: Seq<u8>) -> Dict {
    |k: Seq<u8>| words::dict_of(keys, values)(p + k)
}

/// The children with bytes below `cur`, which are at the base `b` below the node `dic_id`,
/// are done; the others wait.
pub open spec fn placing(
    pool: SlotPool,
    sem: Map<u32, Dict>,
    keys: Seq<Seq<u8>>,
    values: Seq<i32>,
    begin: int,
    end: int,
    p: Seq<u8>,
    b: u32,
    dic_id: u32,
    cur: int,
) -> bool {
    let d = p.len() as int;
    &&& pool.fixed(dic_id)
    &&& !unit::is_leaf_unit(pool.unit(dic_id))
    &&& !sem.contains_key(dic_id)
    &&& trie::base_of(pool, dic_id) == b
    &&& unit::has_leaf_of(pool.unit(dic_id)) == (keyset::byte_at(keys, begin, d) == 0)
    &&& pool.bases@.contains(b)
    &&& b < pool.len()
    &&& forall|c: u8| #[trigger] pool.kid(b, c) <==> has_byte(keys, begin, end, d, c)
    &&& keyset::byte_at(keys, begin, d) == 0 ==> unit::is_leaf_unit(pool.unit(b)) && unit::value_of(
        pool.unit(b),
    ) == values[begin]
    &&& forall|c: u8|
        c != 0 && #[trigger] has_byte(keys, begin, end, d, c) ==> {
            let t = unit::slot(b, c);
            if c < cur {
                &&& sem.contains_key(t)
                &&& forall|k: Seq<u8>| #[trigger] sem[t](k) == below(keys, values, p.push(c))(k)
            } else {
                builder::bare(pool, sem, t)
            }
        }
}

/// After the children got their units, all of them wait.
proof fn lemma_placing_starts(
    old_pool: SlotPool,
    pool: SlotPool,
    sem: Map<u32, Dict>,
    keys: Seq<Seq<u8>>,
    values: Seq<i32>,
    begin: int,
    end: int,
    p: Seq<u8>,
    b: u32,
    dic_id: u32,
    labels: Seq<u8>,
)
    requires
        trie::sem_ok(old_pool, sem),
        builder::bare(old_pool, sem, dic_id),
        labels.len() > 0,
        labels[0] == keyset::byte_at(keys, begin, p.len() as int),
        forall|c: u8| #[trigger] labels.contains(c) <==> has_byte(keys, begin, end, p.len() as int, c),
        pool.arranged(&old_pool, dic_id, labels, values[begin], b),
    ensures
        placing(pool, sem, keys, values, begin, end, p, b, dic_id, 0),
        trie::sem_ok(pool, sem),
        forall|c: u8|
            c != 0 && #[trigger] has_byte(keys, begin, end, p.len() as int, c) ==> !old_pool.fixed(
                unit::slot(b, c),
            ),
{
    let d = p.len() as int;
    trie::lemma_sem_frame(old_pool, pool, sem, Some(dic_id));
    assert(pool.fixed(dic_id));
    assert forall|c: u8| #[trigger] pool.kid(b, c) <==> has_byte(keys, begin, end, d, c) by {
        assert(labels.contains(c) <==> has_byte(keys, begin, end, d, c));
    }
    assert forall|c: u8| c != 0 && #[trigger] has_byte(keys, begin, end, d, c) implies builder::bare(
        pool,
        sem,
        unit::slot(b, c),
    ) && !old_pool.fixed(unit::slot(b, c)) by {
        let t = unit::slot(b, c);
        assert(labels.contains(c));
        assert(pool.kid(b, c));
        assert(!old_pool.fixed(t));
        if sem.contains_key(t) {
            assert(trie::node_ok(old_pool, sem, t));
        }
    }
}

/// A child that was done leaves the others waiting.
proof fn lemma_placing_goes_on(
    old_pool: SlotPool,
    pool: SlotPool,
    old_sem: Map<u32, Dict>,
    sem: Map<u32, Dict>,
    keys: Seq<Seq<u8>>,
    values: Seq<i32>,
    begin: int,
    end: int,
    p: Seq<u8>,
    b: u32,
    dic_id: u32,
    cur: int,
    label: u8,
)
    requires
        placing(old_pool, old_sem, keys, values, begin, end, p, b, dic_id, cur),
        label != 0,
        cur <= label,
        has_byte(keys, begin, end, p.len() as int, label),
        forall|c: u8|
            cur <= c && c < label && c != 0 ==> !#[trigger] has_byte(keys, begin, end, p.len() as int, c),
        dic_id != unit::slot(b, label),
        pool.grew(&old_pool, Some(unit::slot(b, label))),
        builder::added(old_pool, old_sem, sem, unit::slot(b, label)),
        sem.contains_key(unit::slot(b, label)),
        forall|k: Seq<u8>| #[trigger] sem[unit::slot(b, label)](k) == below(keys, values, p.push(label))(k),
    ensures
        placing(pool, sem, keys, values, begin, end, p, b, dic_id, label + 1),
{
    let d = p.len() as int;
    let t = unit::slot(b, label);
    assert(pool.fixed(dic_id));
    assert forall|c: u8| #[trigger] pool.kid(b, c) <==> has_byte(keys, begin, end, d, c) by {
        trie::lemma_kid_stable(old_pool, pool, Some(t), b, c);
    }
    if unit::has_leaf_of(old_pool.unit(dic_id)) && begin < end {
        assert(has_byte(keys, begin, end, d, 0));
        assert(old_pool.kid(b, 0));
        unit::lemma_slot_zero(b);
        assert(pool.fixed(b));
        assert(b != t) by {
            if b == t {
                unit::lemma_slot_injective(b, 0, label);
            }
        }
    }
    assert forall|c: u8| c != 0 && #[trigger] has_byte(keys, begin, end, d, c) implies {
        let x = unit::slot(b, c);
        if c < label + 1 {
            &&& sem.contains_key(x)
            &&& forall|k: Seq<u8>| #[trigger] sem[x](k) == below(keys, values, p.push(c))(k)
        } else {
            builder::bare(pool, sem, x)
        }
    } by {
        let x = unit::slot(b, c);
        if c < cur {
            assert(old_sem.contains_key(x));
        } else if c > label {
            assert(builder::bare(old_pool, old_sem, x));
            if x == t {
                unit::lemma_slot_injective(b, c, label);
            }
            assert(pool.fixed(x));
            if sem.contains_key(x) {
                assert(x == t || !old_pool.fixed(x));
            }
        }
    }
}

/// When all children are done, the base stands for the keys that begin with `p`.
proof fn lemma_placing_ends(
    pool: SlotPool,
    sem: Map<u32, Dict>,
    keys: Seq<Seq<u8>>,
    values: Seq<i32>,
    begin: int,
    end: int,
    p: Seq<u8>,
    b: u32,
    dic_id: u32,
)
    requires
        cover(keys, begin, end, p),
        keyset::scan_error(keys, values, begin, end, p.len() as int) is None,
        placing(pool, sem, keys, values, begin, end, p, b, dic_id, 256),
    ensures
        trie::base_ok(pool, sem, below(keys, values, p), b),
        unit::has_leaf_of(pool.unit(dic_id)) == pool.kid(b, 0),
{
    let d = p.len() as int;
    let n = keys.len() as int;
    let den = below(keys, values, p);
    unit::lemma_slot_zero(b);
    let first = keyset::byte_at(keys, begin, d);
    assert(has_byte(keys, begin, end, d, 0) <==> first == 0) by {
        if has_byte(keys, begin, end, d, 0) {
            let i = choose|i: int| begin <= i < end && #[trigger] keyset::byte_at(keys, i, d) == 0;
            keyset::lemma_scan_sorted(keys, values, begin, end, d, begin, i);
        }
    }
    assert(p + Seq::<u8>::empty() =~= p);
    if first == 0 {
        keyset::lemma_scan(keys, values, begin, end, d, begin);
        assert(has_prefix(keys[begin], p));
        assert(keys[begin] =~= p) by {
            assert(keys[begin].take(d) =~= keys[begin]);
        }
        assert forall|j: int| 0 <= j < begin implies #[trigger] keys[j] != keys[begin] by {
            if keys[j] == keys[begin] {
                assert(has_prefix(keys[j], p));
            }
        }
        words::lemma_first_at(keys, values, n, begin);
    } else {
        assert forall|j: int| 0 <= j < n implies #[trigger] keys[j] != p by {
            if keys[j] == p {
                assert(p.take(d) =~= p);
                assert(has_prefix(keys[j], p));
                assert(keyset::byte_at(keys, j, d) == 0);
                assert(has_byte(keys, begin, end, d, 0));
            }
        }
        words::lemma_first_none(keys, values, n, p);
    }
    assert forall|c: u8| #[trigger] trie::child_ok(pool, sem, den, b, c) by {
        if c != 0 && pool.kid(b, c) {
            assert(has_byte(keys, begin, end, d, c));
            let t = unit::slot(b, c);
            assert forall|k: Seq<u8>| #[trigger] den(trie::cons(c, k)) == sem[t](k) by {
                assert(p + trie::cons(c, k) =~= p.push(c) + k);
                assert(sem[t](k) == below(keys, values, p.push(c))(k));
            }
        } else {
            assert forall|k: Seq<u8>| (#[trigger] den(trie::cons(c, k))) is None by {
                let key = p + trie::cons(c, k);
                assert forall|j: int| 0 <= j < n implies #[trigger] keys[j] != key by {
                    if keys[j] == key {
                        assert(key.take(d) =~= p);
                        assert(has_prefix(keys[j], p));
                        assert(key[d] == c);
                        assert(keyset::byte_at(keys, j, d) == c);
                        if c == 0 {
                            keyset::lemma_scan(keys, values, begin, end, d, j);
                        } else {
                            assert(has_byte(keys, begin, end, d, c));
                        }
                    }
                }
                words::lemma_first_none(keys, values, n, key);
            }
        }
    }
    let rest = keys[begin].skip(d);
    assert(has_prefix(keys[begin], p));
    assert(p + rest =~= keys[begin]);
    words::lemma_occurs_some(keys, values, n, begin);
    assert(den(rest) is Some);
}

impl<'a> DoubleArrayBuilder<'a> {
    /// Places the next bytes of the keys from `begin` to `end`, which agree on their first
    /// `depth` bytes, below the node `dic_id`.
    fn arrange_from_keyset<P: Progress>(
        &mut self,
        begin: usize,
        end: usize,
        depth: usize,
        dic_id: Id,
        progress: &mut P,
    ) -> (res: Result<Id, BuildError>)
        requires
            old(self).idle(),
            old(self).keyset.wf(),
            old(progress).ready(),
            begin < end <= old(self).keyset.seqs().len(),
            builder::bare(old(self).pool, old(self).sem@, dic_id),
        ensures
            *final(self) == (DoubleArrayBuilder { pool: final(self).pool, labels: final(self).labels, ..*old(self) }),
            final(progress).ready(),
            *final(progress) == scan_told(
                *old(progress),
                old(self).keyset.seqs(),
                old(self).keyset.vals(),
                begin as int,
                end as int,
                depth as int,
            ),
            res is Ok ==> ({
                let keys = old(self).keyset.seqs();
                *final(progress) == progress::heard(
                    *old(progress),
                    begin as int,
                    ended(keys, begin as int, end as int, depth as int),
                    (keys.len() + 1) as int,
                )
            }),
            ({
                let keys = old(self).keyset.seqs();
                let vals = old(self).keyset.vals();
                let err = keyset::scan_error(keys, vals, begin as int, end as int, depth as int);
                match res {
                    Err(e) => {
                        ||| err == Some(e.text())
                        ||| {
                            &&& err is None
                            &&& e.text() == error::too_large()
                            &&& old(self).pool.len() == 0x2000_0000
                            &&& final(self).pool == old(self).pool
                            &&& old(self).pool.plan().arrange(
                                dic_id,
                                labels_of(keys, begin as int, end as int, depth as int),
                                leaf_value(keys, vals, begin as int, depth as int),
                            ) is None
                        }
                    },
                    Ok(b) => {
                        let labels = final(self).labels@;
                        &&& err is None
                        &&& labels.len() > 0
                        &&& labels[0] == keyset::byte_at(keys, begin as int, depth as int)
                        &&& labels == labels_of(keys, begin as int, end as int, depth as int)
                        &&& old(self).pool.plan().arrange(
                            dic_id,
                            labels,
                            leaf_value(keys, vals, begin as int, depth as int),
                        ) == Some((final(self).pool.plan(), b))
                        &&& forall|c: u8|
                            #[trigger] labels.contains(c) <==> has_byte(
                                keys,
                                begin as int,
                                end as int,
                                depth as int,
                                c,
                            )
                        &&& final(self).pool.arranged(&old(self).pool, dic_id, labels, vals[begin as int], b)
                    },
                }
            }),
    {
        let ghost keys: Seq<Seq<u8>> = self.keyset.seqs();
        let ghost vals: Seq<i32> = self.keyset.vals();
        let ghost first: u8 = keyset::byte_at(keys, begin as int, depth as int);
        let n: usize = self.keyset.num_keys();
        self.labels.clear();
        assert(self.labels@ =~= Seq::<u8>::empty());
        let mut value: i32 = -1;
        let mut i: usize = begin;
        let ghost mut z: int = begin as int;
        while i < end
            invariant
                begin <= z <= i,
                forall|j: int| begin <= j < z ==> #[trigger] keyset::byte_at(keys, j, depth as int) == 0,
                forall|j: int| z <= j < i ==> #[trigger] keyset::byte_at(keys, j, depth as int) != 0,
                *progress == progress::heard(*old(progress), begin as int, z, n + 1),
                *progress == scan_told(*old(progress), keys, vals, begin as int, i as int, depth as int),
                begin <= i <= end,
                begin < end <= n,
                n == keys.len(),
                n < usize::MAX,
                keys == self.keyset.seqs(),
                vals == self.keyset.vals(),
                first == keyset::byte_at(keys, begin as int, depth as int),
                self.keyset.wf(),
                progress.ready(),
                *self == (DoubleArrayBuilder { labels: self.labels, ..*old(self) }),
                keyset::scan_error(keys, vals, begin as int, i as int, depth as int) is None,
                i > begin ==> {
                    &&& self.labels@.len() > 0
                    &&& self.labels@[0] == first
                    &&& self.labels@.last() == keyset::byte_at(keys, i - 1, depth as int)
                },
                i == begin ==> self.labels@.len() == 0,
                self.labels@ == labels_of(keys, begin as int, i as int, depth as int),
                slots::ascending(self.labels@),
                forall|c: u8|
                    #[trigger] self.labels@.contains(c) <==> has_byte(
                        keys,
                        begin as int,
                        i as int,
                        depth as int,
                        c,
                    ),
                value == (if i > begin && first == 0 {
                    vals[begin as int] as int
                } else {
                    -1
                }),
                i > begin && first == 0 ==> value >= 0,
            decreases end - i,
        {
            let ghost before: Seq<u8> = self.labels@;
            let label: u8 = self.keyset.key_byte(i, depth);
            proof {
                assert(keyset::scan_error(keys, vals, begin as int, i + 1, depth as int) == keyset::index_error(
                    keys,
                    vals,
                    begin as int,
                    i as int,
                    depth as int,
                ));
                if keyset::index_error(keys, vals, begin as int, i as int, depth as int) is Some {
                    keyset::lemma_scan_stays(keys, vals, begin as int, i + 1, end as int, depth as int);
                    lemma_scan_told(
                        *old(progress),
                        keys,
                        vals,
                        begin as int,
                        i + 1,
                        end as int,
                        depth as int,
                    );
                }
                if i > begin {
                    keyset::lemma_scan_sorted(
                        keys,
                        vals,
                        begin as int,
                        i as int,
                        depth as int,
                        begin as int,
                        i - 1,
                    );
                }
            }
            if label == 0 {
                if depth < self.keyset.key_len(i) {
                    return Err(BuildError::from("Failed to build double-array: invalid null character"));
                }
                let val: i32 = self.keyset.value(i);
                if val < 0 {
                    return Err(BuildError::from("Failed to build double-array: negative value"));
                }
                if value == -1 {
                    value = val;
                }
                if value != val {
                    return Err(
                        BuildError::from("Failed to build double-array: inconsistent value for the same key"),
                    );
                }
                progress.report(i + 1, n + 1);
            }
            if self.labels.len() == 0 {
                self.labels.push(label);
            } else {
                let last: u8 = self.labels[self.labels.len() - 1];
                if label != last {
                    if label < last {
                        return Err(BuildError::from("Failed to build double-array: wrong key order"));
                    }
                    self.labels.push(label);
                }
            }
            proof {
                if label == 0 {
                    if z < i {
                        assert(keyset::byte_at(keys, i - 1, depth as int) != 0);
                    }
                    z = i + 1;
                }
                assert forall|c: u8| #[trigger] self.labels@.contains(c) <==> has_byte(
                    keys,
                    begin as int,
                    i + 1,
                    depth as int,
                    c,
                ) by {
                    lemma_label_added(keys, begin as int, i as int, depth as int, before, self.labels@, c);
                }
                assert forall|x: int, y: int| 0 <= x < y < self.labels@.len() implies self.labels@[x]
                    < self.labels@[y] by {
                    if y == before.len() && x < before.len() - 1 {
                        assert(before[x] < before[before.len() - 1]);
                    }
                }
            }
            i += 1;
        }
        let res: Result<Id, BuildError> = self.pool.arrange(dic_id, &self.labels, value);
        proof {
            lemma_ended(keys, begin as int, end as int, depth as int, z);
            if first != 0 {
                if let Ok(b) = res {
                    assert(self.pool.arranged(&old(self).pool, dic_id, self.labels@, vals[begin as int], b));
                }
            }
        }
        res
    }
}

/// The labels so far are the bytes so far.
proof fn lemma_label_added(
    keys: Seq<Seq<u8>>,
    begin: int,
    i: int,
    depth: int,
    before: Seq<u8>,
    after: Seq<u8>,
    c: u8,
)
    requires
        begin <= i,
        before.contains(c) <==> has_byte(keys, begin, i, depth, c),
        after == before.push(keyset::byte_at(keys, i, depth)) || (after == before && before.len() > 0
            && before.last() == keyset::byte_at(keys, i, depth)),
    ensures
        after.contains(c) <==> has_byte(keys, begin, i + 1, depth, c),
{
    let label = keyset::byte_at(keys, i, depth);
    if after.contains(c) {
        let x = choose|x: int| 0 <= x < after.len() && after[x] == c;
        if x < before.len() {
            assert(before[x] == c);
            assert(before.contains(c));
            let j = choose|j: int| begin <= j < i && #[trigger] keyset::byte_at(keys, j, depth) == c;
            assert(keyset::byte_at(keys, j, depth) == c);
        } else {
            assert(label == c);
        }
    }
    if has_byte(keys, begin, i + 1, depth, c) {
        let j = choose|j: int| begin <= j < i + 1 && #[trigger] keyset::byte_at(keys, j, depth) == c;
        if j < i {
            assert(has_byte(keys, begin, i, depth, c));
            let x = choose|x: int| 0 <= x < before.len() && before[x] == c;
            assert(after[x] == c);
        } else {
            assert(after[after.len() - 1] == c);
        }
    }
}

impl<'a> DoubleArrayBuilder<'a> {
    /// Places the keys from `begin` to `end`, which are those that begin with the `depth`
    /// bytes `p`, below the node `dic_id`.
    #[verifier::rlimit(40)]
    fn build_from_keyset_recursive<P: Progress>(
        &mut self,
        begin: usize,
        end: usize,
        depth: usize,
        dic_id: Id,
        progress: &mut P,
        Ghost(p): Ghost<Seq<u8>>,
        Ghost(height): Ghost<nat>,
    ) -> (res: Result<(), BuildError>)
        requires
            old(self).idle(),
            old(self).keyset.wf(),
            old(progress).ready(),
            cover(old(self).keyset.seqs(), begin as int, end as int, p),
            depth == p.len(),
            forall|i: int|
                begin <= i < end ==> (#[trigger] old(self).keyset.seqs()[i]).len() <= depth + height,
            builder::bare(old(self).pool, old(self).sem@, dic_id),
        ensures
            *final(self) == (DoubleArrayBuilder {
                pool: final(self).pool,
                labels: final(self).labels,
                sem: final(self).sem,
                ..*old(self)
            }),
            final(progress).ready(),
            *final(progress) == tree_told(
                *old(progress),
                old(self).pool.plan(),
                old(self).keyset.seqs(),
                old(self).keyset.vals(),
                begin as int,
                end as int,
                depth as int,
                dic_id,
                height,
            ),
            res is Ok ==> *final(progress) == progress::heard(
                *old(progress),
                begin as int,
                end as int,
                (old(self).keyset.seqs().len() + 1) as int,
            ),
            forall|k: int|
                #[trigger] old(self).pool.plan().small(k) && 0 <= k ==> {
                    let w = span(old(self).keyset.seqs(), begin as int, end as int, depth as int);
                    k + w <= 30 && res is Ok ==> final(self).pool.plan().small(k + w)
                },
            ({
                let keys = old(self).keyset.seqs();
                let vals = old(self).keyset.vals();
                let err = keyset::tree_error(keys, vals, begin as int, end as int, depth as int, height);
                &&& tree_plan(
                    old(self).pool.plan(),
                    keys,
                    vals,
                    begin as int,
                    end as int,
                    depth as int,
                    dic_id,
                    height,
                ) == match res {
                    Ok(()) => Ok(final(self).pool.plan()),
                    Err(e) => Err(e.text()),
                }
                &&& match res {
                    Err(e) => {
                        ||| err == Some(e.text())
                        ||| {
                            &&& e.text() == error::too_large()
                            &&& final(self).pool.len() == 0x2000_0000
                            &&& old(self).pool.len() + 256 * (span(keys, begin as int, end as int, depth as int) - 1)
                                >= 0x2000_0000
                        }
                    },
                    Ok(()) => {
                        &&& err is None
                        &&& final(self).idle()
                        &&& builder::added(old(self).pool, old(self).sem@, final(self).sem@, dic_id)
                        &&& final(self).sem@.contains_key(dic_id)
                        &&& final(self).sem@[dic_id] == below(keys, vals, p)
                        &&& final(self).pool.grew(&old(self).pool, Some(dic_id))
                        &&& final(self).pool.len() <= old(self).pool.len() + 256 * span(
                            keys,
                            begin as int,
                            end as int,
                            depth as int,
                        )
                    },
                }
            }),
        decreases height,
    {
        let ghost keys: Seq<Seq<u8>> = self.keyset.seqs();
        let ghost vals: Seq<i32> = self.keyset.vals();
        let ghost d: int = depth as int;
        let ghost bg: int = begin as int;
        let ghost ed: int = end as int;
        proof {
            assert(has_prefix(keys[bg], p));
            assert(span(keys, bg, bg, d) == 0);
            assert(span(keys, bg, bg + 1, d) >= 1);
            lemma_span_monotonic(keys, bg, bg + 1, ed, d);
        }
        let offset: Id = match self.arrange_from_keyset(begin, end, depth, dic_id, progress) {
            Ok(offset) => offset,
            Err(e) => {
                return Err(e);
            },
        };
        let ghost b: u32 = offset;
        let ghost m: int = self.labels@.len() as int;
        proof {
            assert forall|k: int|
                #[trigger] old(self).pool.plan().small(k) && 0 <= k && k + span(keys, bg, ed, d) <= 30 implies self.pool.plan().small(
                k + m,
            ) by {
                lemma_arrange_small(old(self).pool, dic_id, keys, vals, bg, ed, p, k);
            }
        }
        let ghost all: P = tree_told(
            *old(progress),
            old(self).pool.plan(),
            keys,
            vals,
            bg,
            ed,
            d,
            dic_id,
            height,
        );
        let ghost whole: Result<Plan, Seq<char>> = tree_plan(old(self).pool.plan(), keys, vals, bg, ed, d, dic_id, height);
        proof {
            lemma_placing_starts(
                old(self).pool,
                self.pool,
                self.sem@,
                keys,
                vals,
                bg,
                ed,
                p,
                b,
                dic_id,
                self.labels@,
            );
        }
        let mut child_begin: usize = begin;
        while child_begin < end && self.keyset.key_byte(child_begin, depth) == 0
            invariant
                begin <= child_begin <= end,
                end <= keys.len(),
                keys == self.keyset.seqs(),
                bg == begin && ed == end && d == depth,
                forall|j: int| bg <= j < child_begin ==> #[trigger] keyset::byte_at(keys, j, d) == 0,
                keyset::trees_error(keys, vals, child_begin as int, ed, d, height) == keyset::trees_error(
                    keys,
                    vals,
                    bg,
                    ed,
                    d,
                    height,
                ),
                trees_plan(self.pool.plan(), keys, vals, child_begin as int, ed, d, b, height) == whole,
                trees_told(*progress, self.pool.plan(), keys, vals, child_begin as int, ed, d, b, height) == all,
            decreases end - child_begin,
        {
            child_begin += 1;
        }
        proof {
            lemma_ended(keys, bg, ed, d, child_begin as int);
        }
        let ghost mut cur: int = 0;
        let mut last_begin: usize = child_begin;
        proof {
            if last_begin > begin {
                lemma_span_monotonic(keys, bg, bg + 1, last_begin as int, d);
            }
            lemma_labels_span(keys, vals, bg, ed, p, bg, last_begin as int);
        }
        while last_begin < end
            invariant
                begin <= child_begin <= last_begin <= end,
                *progress == progress::heard(*old(progress), bg, last_begin as int, (keys.len() + 1) as int),
                begin < end <= keys.len(),
                keys == self.keyset.seqs(),
                vals == self.keyset.vals(),
                self.keyset.wf(),
                progress.ready(),
                bg == begin && ed == end && d == depth && b == offset,
                depth == p.len(),
                cover(keys, bg, ed, p),
                forall|i: int| bg <= i < ed ==> (#[trigger] keys[i]).len() <= depth + height,
                *self == (DoubleArrayBuilder {
                    pool: self.pool,
                    labels: self.labels,
                    sem: self.sem,
                    ..*old(self)
                }),
                builder::bare(old(self).pool, old(self).sem@, dic_id),
                keyset::scan_error(keys, vals, bg, ed, d) is None,
                keyset::trees_error(keys, vals, last_begin as int, ed, d, height) == keyset::trees_error(
                    keys,
                    vals,
                    bg,
                    ed,
                    d,
                    height,
                ),
                trees_plan(self.pool.plan(), keys, vals, last_begin as int, ed, d, b, height) == whole,
                trees_told(*progress, self.pool.plan(), keys, vals, last_begin as int, ed, d, b, height) == all,
                all == tree_told(*old(progress), old(self).pool.plan(), keys, vals, bg, ed, d, dic_id, height),
                m == labels_of(keys, bg, ed, d).len(),
                forall|k: int|
                    #[trigger] old(self).pool.plan().small(k) && 0 <= k && k + span(keys, bg, ed, d) <= 30
                        ==> self.pool.plan().small(
                        k + m + span(keys, bg, last_begin as int, d) - labels_of(keys, bg, last_begin as int, d).len(),
                    ),
                whole == tree_plan(old(self).pool.plan(), keys, vals, bg, ed, d, dic_id, height),
                self.idle(),
                self.pool.grew(&old(self).pool, Some(dic_id)),
                placing(self.pool, self.sem@, keys, vals, bg, ed, p, b, dic_id, cur),
                builder::added(old(self).pool, old(self).sem@, self.sem@, dic_id),
                forall|c: u8|
                    c != 0 && #[trigger] has_byte(keys, bg, ed, d, c) ==> !old(self).pool.fixed(unit::slot(b, c)),
                self.pool.len() <= old(self).pool.len() + 256 * (1 + span(keys, bg, last_begin as int, d) - (
                if last_begin > begin {
                    1int
                } else {
                    0int
                })),
                forall|j: int| bg <= j < last_begin ==> #[trigger] keyset::byte_at(keys, j, d) < cur || keyset::byte_at(
                    keys,
                    j,
                    d,
                ) == 0,
                last_begin < end ==> keyset::byte_at(keys, last_begin as int, d) >= cur && keyset::byte_at(
                    keys,
                    last_begin as int,
                    d,
                ) != 0,
                0 <= cur <= 256,
            decreases end - last_begin,
        {
            let ghost mid: DoubleArrayBuilder<'a> = *self;
            let ghost lb: int = last_begin as int;
            let last_label: u8 = self.keyset.key_byte(last_begin, depth);
            let mut i: usize = last_begin + 1;
            while i < end && self.keyset.key_byte(i, depth) == last_label
                invariant
                    last_begin < i <= end,
                    end <= keys.len(),
                    keys == self.keyset.seqs(),
                    lb == last_begin && ed == end && d == depth,
                    last_label == keyset::byte_at(keys, lb, d),
                    forall|j: int| lb <= j < i ==> #[trigger] keyset::byte_at(keys, j, d) == last_label,
                    keyset::run_end(keys, lb, i as int, ed, d) == keyset::run_end(keys, lb, lb + 1, ed, d),
                decreases end - i,
            {
                i += 1;
            }
            let ghost t: u32 = unit::slot(b, last_label);
            proof {
                assert(i == keyset::run_end(keys, lb, lb + 1, ed, d));
                if lb > bg {
                    let before = keyset::byte_at(keys, lb - 1, d);
                }
                lemma_cover_child(keys, vals, bg, ed, p, lb, i as int);
                assert(keys[lb].len() > d);
                assert(self.keyset.keys@[lb].len() == keys[lb].len());
                assert(height > 0);
                assert(has_byte(keys, bg, ed, d, last_label));
                assert(builder::bare(self.pool, self.sem@, t));
                lemma_span_split(keys, bg, lb, i as int, d);
                lemma_labels_run(keys, bg, lb, i as int, d);
                lemma_labels_span(keys, vals, bg, ed, p, i as int, ed);
                lemma_labels_span(keys, vals, bg, ed, p, bg, lb);
                lemma_span_monotonic(keys, bg, i as int, ed, d);
            }
            match self.build_from_keyset_recursive(
                last_begin,
                i,
                depth + 1,
                offset ^ (last_label as Id),
                progress,
                Ghost(p.push(last_label)),
                Ghost((height - 1) as nat),
            ) {
                Ok(()) => {},
                Err(e) => {
                    return Err(e);
                },
            }
            proof {
                progress::lemma_heard_on(*old(progress), bg, lb, i as int, (keys.len() + 1) as int);
                assert forall|c: u8| cur <= c && c < last_label && c != 0 implies !#[trigger] has_byte(
                    keys,
                    bg,
                    ed,
                    d,
                    c,
                ) by {
                    if has_byte(keys, bg, ed, d, c) {
                        let j = choose|j: int| bg <= j < ed && #[trigger] keyset::byte_at(keys, j, d) == c;
                        if j >= lb {
                            keyset::lemma_scan_sorted(keys, vals, bg, ed, d, lb, j);
                        }
                    }
                }
                lemma_placing_goes_on(
                    mid.pool,
                    self.pool,
                    mid.sem@,
                    self.sem@,
                    keys,
                    vals,
                    bg,
                    ed,
                    p,
                    b,
                    dic_id,
                    cur,
                    last_label,
                );
                slots::lemma_grew_twice(old(self).pool, mid.pool, self.pool, Some(dic_id), Some(t));
                assert forall|id: u32| #[trigger] self.sem@.contains_key(id) && !old(self).sem@.contains_key(
                    id,
                ) implies id == dic_id || !old(self).pool.fixed(id) by {
                    if !mid.sem@.contains_key(id) {
                        if id != t {
                            assert(!mid.pool.fixed(id));
                        }
                    }
                }
                assert forall|id: u32| #[trigger] old(self).sem@.contains_key(id) implies self.sem@.contains_key(
                    id,
                ) && self.sem@[id] == old(self).sem@[id] by {
                    assert(mid.sem@.contains_key(id));
                }
                cur = last_label + 1;
                if i < end {
                    keyset::lemma_scan_sorted(keys, vals, bg, ed, d, lb, i as int);
                }
            }
            last_begin = i;
        }
        proof {
            assert(placing(self.pool, self.sem@, keys, vals, bg, ed, p, b, dic_id, 256)) by {
                assert forall|c: u8| c != 0 && #[trigger] has_byte(keys, bg, ed, d, c) implies c < cur by {
                    let j = choose|j: int| bg <= j < ed && #[trigger] keyset::byte_at(keys, j, d) == c;
                }
            }
            let den = below(keys, vals, p);
            lemma_placing_ends(self.pool, self.sem@, keys, vals, bg, ed, p, b, dic_id);
            builder::lemma_done(self.pool, self.sem@, dic_id, den, b);
            self.sem@ = self.sem@.insert(dic_id, den);
        }
        Ok(())
    }
}

impl<'a> DoubleArrayBuilder<'a> {
    /// Turns the keys into a double array.
    pub fn build_from_keyset<P: Progress>(&mut self, progress: &mut P) -> (res: Result<(), BuildError>)
        requires
            old(self).keyset.wf(),
            old(progress).ready(),
            old(self).pool.idle(),
            old(self).pool.len() == 0,
            old(self).pool.bases@ == Set::<u32>::empty(),
        ensures
            ({
                let keys = old(self).keyset.seqs();
                let vals = old(self).keyset.vals();
                let n = keys.len() as int;
                &&& outcome(keys, vals) == match res {
                    Ok(()) => Ok(slots::words_of(final(self).pool.units@)),
                    Err(e) => Err(e.text()),
                }
                &&& match res {
                    Err(e) => {
                        ||| keyset::direct_error(keys, vals) == Some(e.text())
                        ||| {
                            &&& e.text() == error::too_large()
                            &&& final(self).pool.len() == 0x2000_0000
                            &&& words::trie_size(keys, n) >= 0x20_0000
                        }
                    },
                    Ok(()) => {
                        &&& keyset::direct_error(keys, vals) is None
                        &&& 0 < final(self).pool.len() <= 256 * (1 + words::trie_size(keys, n))
                        &&& words::trie_size(keys, n) <= 29 ==> final(self).pool.len() == 256
                        &&& final(self).pool.shape_wf()
                        &&& builder::holds(
                            slots::words_of(final(self).pool.units@),
                            words::dict_of(keys, vals),
                            n > 0,
                        )
                    },
                }
            }),
            final(self).keyset == old(self).keyset,
            final(progress).ready(),
            *final(progress) == told(*old(progress), old(self).keyset.seqs(), old(self).keyset.vals()),
            res is Ok ==> *final(progress) == progress::heard(
                *old(progress),
                0,
                old(self).keyset.seqs().len() as int,
                (old(self).keyset.seqs().len() + 1) as int,
            ),
    {
        let ghost keys: Seq<Seq<u8>> = self.keyset.seqs();
        let ghost vals: Seq<i32> = self.keyset.vals();
        let n: usize = self.keyset.num_keys();
        match self.pool.plant_root() {
            Ok(()) => {},
            Err(e) => {
                return Err(e);
            },
        }
        proof {
            self.sem@ = Map::empty();
        }
        if n > 0 {
            let ghost p: Seq<u8> = Seq::empty();
            let ghost height: nat = keyset::max_len(keys, n as int);
            proof {
                assert forall|i: int| 0 <= i < keys.len() implies ((0 <= i < n) <==> #[trigger] has_prefix(
                    keys[i],
                    p,
                )) by {
                    assert(keys[i].take(0) =~= p);
                }
                assert forall|i: int| 0 <= i < n implies (#[trigger] keys[i]).len() <= height by {
                    keyset::lemma_max_len(keys, n as int, i);
                }
                lemma_span_all(keys, n as int);
            }
            assert(self.pool.plan().small(1));
            match self.build_from_keyset_recursive(0, n, 0, 0, progress, Ghost(p), Ghost(height)) {
                Ok(()) => {},
                Err(e) => {
                    return Err(e);
                },
            }
        }
        let ghost before: SlotPool = self.pool;
        self.pool.fix_all_blocks();
        proof {
            let d = words::dict_of(keys, vals);
            if n > 0 {
                trie::lemma_sem_frame(before, self.pool, self.sem@, None);
                assert forall|k: Seq<u8>| #[trigger] self.sem@[0](k) == d(k) by {
                    assert(Seq::<u8>::empty() + k =~= k);
                }
                builder::lemma_holds(self.pool, self.sem@, d);
            } else {
                builder::lemma_empty_holds(before, self.pool);
                let a = slots::words_of(self.pool.units@);
                assert forall|k: Seq<u8>| #[trigger] trie::lookup(a, 0, k) == d(k) by {}
            }
        }
        Ok(())
    }
}

} // verus!
