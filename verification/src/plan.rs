//! Where the units of a double array go.
//!
//! A base is the first that fits: free units are tried from the lowest on, and only if none
//! of them gives a base is a block added. So a plan follows from the nodes and the order in
//! which they come.

use vstd::prelude::*;
use crate::slots;
use crate::unit;

verus! {

/// The units so far, those among them that are taken, and the bases of nodes.
#[verifier::ext_equal]
pub struct Plan {
    pub units: Seq<u32>,
    pub taken: Set<u32>,
    pub bases: Set<u32>,
}

impl Plan {
    /// The number of units.
    pub open spec fn len(self) -> int {
        self.units.len() as int
    }

    /// Whether a node `id` can have its children at the base `b`, if its first child can be
    /// there.
    pub open spec fn fits(self, id: u32, labels: Seq<u8>, b: u32) -> bool {
        &&& !self.bases.contains(b)
        &&& slots::near(id, b)
        &&& forall|j: int| 1 <= j < labels.len() ==> !self.taken.contains(unit::slot(b, #[trigger] labels[j]))
    }

    /// Whether unit `s` is free, and the base that has it as the first child fits.
    pub open spec fn candidate(self, id: u32, labels: Seq<u8>, s: int) -> bool {
        &&& !self.taken.contains(s as u32)
        &&& self.fits(id, labels, unit::slot(s as u32, labels[0]))
    }

    /// The base that the lowest unit from `s` on gives.
    pub open spec fn first_fit(self, id: u32, labels: Seq<u8>, s: int) -> Option<u32>
        decreases self.len() - s,
    {
        if s >= self.len() {
            None
        } else if self.candidate(id, labels, s) {
            Some(unit::slot(s as u32, labels[0]))
        } else {
            self.first_fit(id, labels, s + 1)
        }
    }

    /// The base for the children of the node `id`.
    pub open spec fn base_for(self, id: u32, labels: Seq<u8>) -> u32 {
        match self.first_fit(id, labels, slots::live_start(self.len())) {
            Some(b) => b,
            None => slots::fresh_base(self.len() as u32, id),
        }
    }

    /// The lowest unit from `b` on, below `end`, that is no base; zero if there is none.
    pub open spec fn spare(self, b: int, end: int) -> u32
        decreases end - b,
    {
        if b >= end {
            0
        } else if !self.bases.contains(b as u32) {
            b as u32
        } else {
            self.spare(b + 1, end)
        }
    }

    /// The free units of a block are filled, under labels that no base can reach.
    pub open spec fn seal(self, begin: int) -> Plan {
        let spare = self.spare(begin, begin + 256);
        Plan {
            units: Seq::new(
                self.units.len(),
                |i: int|
                    if begin <= i < begin + 256 && !self.taken.contains(i as u32) {
                        ((i as u32 ^ spare) as u8) as u32
                    } else {
                        self.units[i]
                    },
            ),
            taken: Set::new(|s: u32| self.taken.contains(s) || begin <= s < begin + 256),
            bases: self.bases,
        }
    }

    /// All blocks from `begin` on are filled.
    pub open spec fn seal_from(self, begin: int) -> Plan
        decreases self.len() - begin,
    {
        if begin + 256 > self.len() {
            self
        } else {
            self.seal(begin).seal_from(begin + 256)
        }
    }

    /// A block is added; the block that leaves the last sixteen is filled.
    pub open spec fn expand(self) -> Plan {
        let p = if self.len() >= 4096 {
            self.seal(self.len() - 4096)
        } else {
            self
        };
        Plan { units: p.units + Seq::new(256, |i: int| 0u32), ..p }
    }

    /// Unit `id` is taken and written.
    pub open spec fn claim(self, id: u32, word: u32) -> Plan {
        let p = if id >= self.len() {
            self.expand()
        } else {
            self
        };
        Plan { units: p.units.update(id as int, word), taken: p.taken.insert(id), ..p }
    }

    /// Unit `id` is written.
    pub open spec fn write(self, id: u32, word: u32) -> Plan {
        Plan { units: self.units.update(id as int, word), ..self }
    }

    /// The children with the first `n` labels are placed at the base `b`.
    pub open spec fn place(self, b: u32, labels: Seq<u8>, value: i32, n: int) -> Plan
        decreases n,
    {
        if n <= 0 {
            self
        } else {
            self.place(b, labels, value, n - 1).claim(unit::slot(b, labels[n - 1]), child_word(labels[n - 1], value))
        }
    }

    /// The node `id` gets children with these labels, if there is a base that can be held.
    pub open spec fn arrange(self, id: u32, labels: Seq<u8>, value: i32) -> Option<(Plan, u32)> {
        let b = self.base_for(id, labels);
        if b >= 0x2000_0000 {
            None
        } else {
            let word = node_word(self.units[id as int], id ^ b, labels[0] == 0);
            let p = Plan { bases: self.bases.insert(b), ..self.write(id, word) };
            Some((p.place(b, labels, value, labels.len() as int), b))
        }
    }

    /// The node `id` shares the children of the base `b`.
    pub open spec fn share(self, id: u32, b: u32, has_leaf: bool) -> Plan {
        let word = self.units[id as int];
        let marked = if has_leaf {
            word | 0x100
        } else {
            word
        };
        self.write(id, (marked & 0x8000_01FF) | unit::offset_bits(id ^ b))
    }
}

/// A unit for a child with this label: a leaf with the value if the label is zero.
pub open spec fn child_word(label: u8, value: i32) -> u32 {
    if label == 0 {
        (value as u32) | 0x8000_0000
    } else {
        label as u32
    }
}

/// The word of a node once its offset is known.
pub open spec fn node_word(word: u32, offset: u32, has_leaf: bool) -> u32 {
    let w = (word & 0x8000_01FF) | unit::offset_bits(offset);
    if has_leaf {
        w | 0x100
    } else {
        w
    }
}

/// Nothing but the root, which has no children yet.
pub open spec fn planted() -> Plan {
    Plan {
        units: Seq::new(256, |i: int| 0u32).update(0, unit::offset_bits(1)),
        taken: set![0u32],
        bases: set![0u32],
    }
}

/// A finished plan: no unit is free.
pub open spec fn finished(p: Plan) -> Seq<u32> {
    p.seal_from(slots::live_start(p.len())).units
}

/// The search goes past units that give no base.
pub proof fn lemma_skip(p: Plan, id: u32, labels: Seq<u8>, from: int, to: int)
    requires
        from <= to <= p.len(),
        forall|s: int| from <= s < to ==> !#[trigger] p.candidate(id, labels, s),
    ensures
        p.first_fit(id, labels, from) == p.first_fit(id, labels, to),
    decreases to - from,
{
    if from < to {
        assert(!p.candidate(id, labels, from));
        lemma_skip(p, id, labels, from + 1, to);
    }
}

impl Plan {
    /// One block, with no more than `k` units taken and no more than `k` bases.
    pub open spec fn small(self, k: int) -> bool {
        &&& self.len() == 256
        &&& self.taken.finite()
        &&& self.taken.len() <= k
        &&& self.bases.finite()
        &&& self.bases.len() <= k
    }

    /// The bases at which one of the first `n` labels would meet a taken unit, or which are
    /// bases already.
    pub open spec fn blocked(self, labels: Seq<u8>, n: int) -> Set<u32>
        decreases n,
    {
        if n <= 0 {
            self.bases
        } else {
            self.blocked(labels, n - 1).union(self.taken.map(|t: u32| unit::slot(t, labels[n - 1])))
        }
    }
}

proof fn lemma_blocked(p: Plan, labels: Seq<u8>, k: int, n: int)
    requires
        p.small(k),
        0 <= n <= labels.len(),
    ensures
        p.blocked(labels, n).finite(),
        p.blocked(labels, n).len() <= k * (n + 1),
        p.bases.subset_of(p.blocked(labels, n)),
        forall|j: int, t: u32|
            0 <= j < n && p.taken.contains(t) ==> p.blocked(labels, n).contains(
                #[trigger] unit::slot(t, labels[j]),
            ),
    decreases n,
{
    if n > 0 {
        lemma_blocked(p, labels, k, n - 1);
        let f = |t: u32| unit::slot(t, labels[n - 1]);
        let more = p.taken.map(f);
        vstd::set_lib::lemma_map_size_bound(p.taken, more, f);
        vstd::set_lib::lemma_len_union(p.blocked(labels, n - 1), more);
        assert(k * (n + 1) == k * n + k) by (nonlinear_arith);
        assert forall|j: int, t: u32| 0 <= j < n && p.taken.contains(t) implies p.blocked(labels, n).contains(
            #[trigger] unit::slot(t, labels[j]),
        ) by {
            if j < n - 1 {
                assert(p.blocked(labels, n - 1).contains(unit::slot(t, labels[j])));
            } else {
                assert(more.contains(f(t)));
            }
        }
    } else {
        assert(k * (n + 1) == k) by (nonlinear_arith)
            requires
                n == 0,
        ;
    }
}

/// A set with less than 256 numbers leaves one of the first 256 out.
proof fn lemma_one_left(s: Set<u32>) -> (b: u32)
    requires
        s.finite(),
        s.len() < 256,
    ensures
        b < 256,
        !s.contains(b),
{
    let all = vstd::set_lib::set_int_range(0, 256);
    vstd::set_lib::lemma_int_range(0, 256);
    let f = |t: u32| t as int;
    let ints = s.map(f);
    vstd::set_lib::lemma_map_size_bound(s, ints, f);
    if forall|b: u32| b < 256 ==> s.contains(b) {
        assert forall|x: int| all.contains(x) implies ints.contains(x) by {
            assert(s.contains(x as u32));
            assert(ints.contains(f(x as u32)));
        }
        vstd::set_lib::lemma_len_subset(all, ints);
    }
    choose|b: u32| b < 256 && !s.contains(b)
}

/// The search finds a base no later than at a unit that gives one.
proof fn lemma_finds(p: Plan, id: u32, labels: Seq<u8>, from: int, s: int)
    requires
        from <= s < p.len() <= 0x1_0000_0000,
        0 <= from,
        p.candidate(id, labels, s),
    ensures
        p.first_fit(id, labels, from) is Some,
        exists|t: int|
            from <= t <= s && #[trigger] p.candidate(id, labels, t) && p.first_fit(id, labels, from) == Some(
                unit::slot(t as u32, labels[0]),
            ),
    decreases s - from,
{
    if !p.candidate(id, labels, from) {
        lemma_finds(p, id, labels, from + 1, s);
    }
}

/// In a block where little is taken there is room for a node.
proof fn lemma_fits_small(p: Plan, id: u32, labels: Seq<u8>, k: int)
    requires
        p.small(k),
        labels.len() > 0,
        k * (labels.len() + 1) < 256,
        id < 256,
    ensures
        p.base_for(id, labels) < 256,
{
    let m = labels.len() as int;
    lemma_blocked(p, labels, k, m);
    let b = lemma_one_left(p.blocked(labels, m));
    let s = unit::slot(b, labels[0]);
    assert forall|j: int| 0 <= j < m implies !p.taken.contains(unit::slot(b, #[trigger] labels[j])) by {
        let t = unit::slot(b, labels[j]);
        unit::lemma_slot_twice(b, labels[j]);
        if p.taken.contains(t) {
            assert(p.blocked(labels, m).contains(unit::slot(t, labels[j])));
        }
    }
    assert(!p.taken.contains(s)) by {
        assert(!p.taken.contains(unit::slot(b, labels[0])));
    }
    unit::lemma_slot_twice(b, labels[0]);
    unit::lemma_slot_block(b, labels[0]);
    assert(id < 256 && b < 256 ==> (id ^ b) & 0x1FE0_0000 == 0) by (bit_vector);
    assert(p.candidate(id, labels, s as int));
    lemma_finds(p, id, labels, 0, s as int);
    let t = choose|t: int|
        0 <= t <= s && #[trigger] p.candidate(id, labels, t) && p.first_fit(id, labels, 0) == Some(
            unit::slot(t as u32, labels[0]),
        );
    unit::lemma_slot_block(t as u32, labels[0]);
}

proof fn lemma_place_small(p: Plan, b: u32, labels: Seq<u8>, value: i32, n: int, k: int)
    requires
        p.len() == 256,
        p.taken.finite(),
        p.taken.len() <= k,
        b < 256,
        0 <= n <= labels.len(),
    ensures
        p.place(b, labels, value, n).len() == 256,
        p.place(b, labels, value, n).taken.finite(),
        p.place(b, labels, value, n).taken.len() <= k + n,
        p.place(b, labels, value, n).bases == p.bases,
    decreases n,
{
    if n > 0 {
        lemma_place_small(p, b, labels, value, n - 1, k);
        unit::lemma_slot_block(b, labels[n - 1]);
    }
}

/// A node with few children, in a block where little is taken, needs no other block.
pub proof fn lemma_arrange_small(p: Plan, id: u32, labels: Seq<u8>, value: i32, k: int)
    requires
        p.small(k),
        labels.len() > 0,
        k * (labels.len() + 1) < 256,
        id < 256,
    ensures
        p.arrange(id, labels, value) matches Some((q, b)) && q.small(k + labels.len()),
{
    lemma_fits_small(p, id, labels, k);
    let b = p.base_for(id, labels);
    let word = node_word(p.units[id as int], id ^ b, labels[0] == 0);
    let q = Plan { bases: p.bases.insert(b), ..p.write(id, word) };
    lemma_place_small(q, b, labels, value, labels.len() as int, k);
}

/// Where two numbers are small together, so is their product.
pub proof fn lemma_small_product(k: int, m: int)
    requires
        0 <= k,
        0 <= m,
        k + m <= 30,
    ensures
        k * (m + 1) < 256,
{
    assert(k * (m + 1) <= k * (31 - k)) by (nonlinear_arith)
        requires
            0 <= k,
            m + 1 <= 31 - k,
    ;
    assert(k * (31 - k) <= 240) by (nonlinear_arith)
        requires
            0 <= k <= 30,
    ;
}

/// A plan has room for a node unless it has as many units as a unit can reach.
pub proof fn law_room(p: Plan, id: u32, labels: Seq<u8>, value: i32)
    requires
        p.len() % 256 == 0,
        p.len() < 0x2000_0000,
        labels.len() > 0,
    ensures
        p.arrange(id, labels, value) is Some,
{
    slots::lemma_fresh_base(p.len() as u32, id);
    lemma_fit_below(p, id, labels, slots::live_start(p.len()));
}

/// A base that is found lies among the units.
proof fn lemma_fit_below(p: Plan, id: u32, labels: Seq<u8>, from: int)
    requires
        p.len() % 256 == 0,
        p.len() < 0x2000_0000,
        0 <= from,
    ensures
        p.first_fit(id, labels, from) matches Some(b) ==> b < p.len(),
    decreases p.len() - from,
{
    if from < p.len() {
        if p.candidate(id, labels, from) {
            unit::lemma_slot_block(from as u32, labels[0]);
        } else {
            lemma_fit_below(p, id, labels, from + 1);
        }
    }
}

/// Whether the children of the node `id` can be placed so that the first of them is the unit
/// `s`: that unit is free and one of the last 4096, no node has the base, the node can hold the
/// distance to it, and the units of the other children are free.
pub open spec fn usable(p: Plan, id: u32, labels: Seq<u8>, s: int) -> bool {
    let b = (s as u32) ^ (labels[0] as u32);
    let distance = id ^ b;
    &&& 0 <= s < p.units.len()
    &&& s >= p.units.len() - 4096
    &&& !p.taken.contains(s as u32)
    &&& !p.bases.contains(b)
    &&& distance % 256 == 0 || (distance / 0x20_0000) % 256 == 0
    &&& forall|j: int| 1 <= j < labels.len() ==> !p.taken.contains(b ^ (#[trigger] labels[j] as u32))
}

/// The base of a node is that which the lowest usable unit gives. If no unit is usable, it is in
/// a block behind the last, as far from its start as the node is from the start of its own.
pub proof fn law_first_fit(p: Plan, id: u32, labels: Seq<u8>)
    requires
        labels.len() > 0,
        p.units.len() <= 0x2000_0000,
        p.units.len() % 256 == 0,
    ensures
        forall|s: int|
            #[trigger] usable(p, id, labels, s) && (forall|t: int| 0 <= t < s ==> !#[trigger] usable(p, id, labels, t))
                ==> p.base_for(id, labels) == (s as u32) ^ (labels[0] as u32),
        (forall|s: int| !#[trigger] usable(p, id, labels, s)) ==> p.base_for(id, labels) == p.units.len() + id % 256,
{
    let n = p.len();
    let start = slots::live_start(n);
    assert forall|s: int| start <= s < n implies (#[trigger] p.candidate(id, labels, s) <==> usable(
        p,
        id,
        labels,
        s,
    )) by {
        let b = unit::slot(s as u32, labels[0]);
        unit::law_held(id ^ b);
        assert forall|j: int| 1 <= j < labels.len() implies unit::slot(b, #[trigger] labels[j]) == b ^ (labels[j] as u32) by {}
        if p.candidate(id, labels, s) {
            assert forall|j: int| 1 <= j < labels.len() implies !p.taken.contains(b ^ (#[trigger] labels[j] as u32)) by {
                assert(!p.taken.contains(unit::slot(b, labels[j])));
            }
        }
        if usable(p, id, labels, s) {
            assert forall|j: int| 1 <= j < labels.len() implies !p.taken.contains(unit::slot(b, #[trigger] labels[j])) by {
                assert(!p.taken.contains(b ^ (labels[j] as u32)));
            }
        }
    }
    assert forall|s: int|
        #[trigger] usable(p, id, labels, s) && (forall|t: int| 0 <= t < s ==> !#[trigger] usable(p, id, labels, t))
        implies p.base_for(id, labels) == (s as u32) ^ (labels[0] as u32) by {
        assert(p.candidate(id, labels, s));
        assert forall|t: int| start <= t < s implies !#[trigger] p.candidate(id, labels, t) by {
            assert(!usable(p, id, labels, t));
        }
        lemma_skip(p, id, labels, start, s);
    }
    if forall|s: int| !#[trigger] usable(p, id, labels, s) {
        assert forall|t: int| start <= t < n implies !#[trigger] p.candidate(id, labels, t) by {
            assert(!usable(p, id, labels, t));
        }
        lemma_skip(p, id, labels, start, n);
        slots::lemma_fresh_base(n as u32, id);
    }
}

/// The lowest unit that is no base.
proof fn lemma_spare(p: Plan, begin: int, end: int, s: int)
    requires
        0 <= begin <= s < end <= u32::MAX,
        !p.bases.contains(s as u32),
        forall|t: int| begin <= t < s ==> p.bases.contains(#[trigger] (t as u32)),
    ensures
        p.spare(begin, end) == s,
    decreases s - begin,
{
    if begin < s {
        assert(p.bases.contains(begin as u32));
        lemma_spare(p, begin + 1, end, s);
    }
}

/// When a block is filled, each of its free units is labelled with its distance from the lowest
/// unit of the block that is the base of no node, so that nothing leads there. All other units
/// stay.
pub proof fn law_seal(p: Plan, begin: int, s: int, i: int)
    requires
        0 <= begin,
        begin + 256 <= p.units.len() <= u32::MAX,
        begin <= s < begin + 256,
        !p.bases.contains(s as u32),
        forall|t: int| begin <= t < s ==> p.bases.contains(#[trigger] (t as u32)),
        0 <= i < p.units.len(),
    ensures
        p.seal(begin).units.len() == p.units.len(),
        p.seal(begin).units[i] == (if begin <= i < begin + 256 && !p.taken.contains(i as u32) {
            ((i as u32) ^ (s as u32)) % 256
        } else {
            p.units[i]
        }),
{
    lemma_spare(p, begin, begin + 256, s);
    slots::lemma_low_byte((i as u32) ^ (s as u32));
}

/// A block that is added has 256 units, all zero; once there are 4096 units, the oldest block
/// that can still be changed is filled then. No other unit changes.
pub proof fn law_expand(p: Plan, i: int)
    requires
        p.units.len() % 256 == 0,
        0 <= i < p.units.len() + 256,
    ensures
        p.expand().units.len() == p.units.len() + 256,
        i >= p.units.len() ==> p.expand().units[i] == 0,
        i < p.units.len() ==> p.expand().units[i] == (if p.units.len() >= 4096 && p.units.len() - 4096 <= i
            < p.units.len() - 3840 {
            p.seal(p.units.len() - 4096).units[i]
        } else {
            p.units[i]
        }),
{
}

/// What is taken when children are placed.
proof fn lemma_place(p: Plan, b: u32, labels: Seq<u8>, value: i32, n: int)
    requires
        0 <= n <= labels.len(),
    ensures
        p.place(b, labels, value, n).bases == p.bases,
        p.taken.subset_of(p.place(b, labels, value, n).taken),
        forall|j: int|
            0 <= j < n ==> p.place(b, labels, value, n).taken.contains(b ^ (#[trigger] labels[j] as u32)),
    decreases n,
{
    if n > 0 {
        lemma_place(p, b, labels, value, n - 1);
        let q = p.place(b, labels, value, n - 1);
        let r = p.place(b, labels, value, n);
        assert(q.taken.subset_of(r.taken));
        assert forall|j: int| 0 <= j < n implies r.taken.contains(b ^ (#[trigger] labels[j] as u32)) by {
            if j < n - 1 {
                assert(q.taken.contains(b ^ (labels[j] as u32)));
            }
        }
    }
}

/// A node gets no children exactly if the base for them is at 2^29 or behind. Else that becomes
/// the base of a node, the units of the children are taken, and no unit is given up.
pub proof fn law_arrange(p: Plan, id: u32, labels: Seq<u8>, value: i32)
    ensures
        p.arrange(id, labels, value) is None <==> p.base_for(id, labels) >= 536870912,
        p.arrange(id, labels, value) matches Some((q, b)) ==> {
            &&& b == p.base_for(id, labels)
            &&& q.bases == p.bases.insert(b)
            &&& p.taken.subset_of(q.taken)
            &&& forall|j: int| 0 <= j < labels.len() ==> q.taken.contains(b ^ (#[trigger] labels[j] as u32))
        },
{
    let b = p.base_for(id, labels);
    let word = node_word(p.units[id as int], id ^ b, labels[0] == 0);
    let r = Plan { bases: p.bases.insert(b), ..p.write(id, word) };
    lemma_place(r, b, labels, value, labels.len() as int);
}

} // verus!
