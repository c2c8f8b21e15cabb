//! The growing double array of a build and the free list that runs through it.
//!
//! Units come in blocks of 256. For the last sixteen blocks the pool keeps an entry
//! per unit that tells whether the unit is taken, whether it is the base of some
//! node, and, while it is free, its neighbours in a circular list.

use vstd::prelude::*;
use crate::error;
use crate::error::BuildError;
use crate::plan;
use crate::plan::Plan;
use crate::unit;
use crate::unit::{HAS_LEAF_FLAG, LABEL_MASK, LEAF_FLAG, OFFSET_FLAG, OFFSET_LIMIT};

verus! {

/// Identifier of a unit.
pub type Id = u32;

/// Units per block.
pub const BLOCK_SIZE: usize = 256;

/// Blocks for which the pool keeps entries.
pub const NUM_EXTRA_BLOCKS: usize = 16;

/// Entries that the pool keeps.
pub const NUM_EXTRAS: usize = 4096;

/// Bits that an offset with nonzero low bits must leave clear.
pub const UPPER_MASK: u32 = 0x1FE0_0000;

/// The low bits of an offset.
pub const LOWER_MASK: u32 = 0xFF;

/// A unit under construction.
#[derive(Clone, Copy, Debug)]
pub struct BuildUnit(pub u32);

impl BuildUnit {
    /// Marks or unmarks this node as the end of a key.
    pub fn set_has_leaf(&mut self, has_leaf: bool)
        ensures
            final(self).0 == (if has_leaf {
                old(self).0 | 0x100
            } else {
                old(self).0 & !0x100u32
            }),
    {
        if has_leaf {
            self.0 = self.0 | HAS_LEAF_FLAG;
        } else {
            self.0 = self.0 & !HAS_LEAF_FLAG;
        }
    }

    /// Turns this unit into a leaf.
    pub fn set_value(&mut self, value: i32)
        ensures
            final(self).0 == (value as u32) | 0x8000_0000,
    {
        self.0 = (value as u32) | LEAF_FLAG;
    }

    /// Sets the label of this node.
    pub fn set_label(&mut self, label: u8)
        ensures
            final(self).0 == (old(self).0 & !0xFFu32) | (label as u32),
    {
        self.0 = (self.0 & !LABEL_MASK) | (label as u32);
    }

    /// Sets the offset of this node, unless it is too large to be held.
    pub fn set_offset(&mut self, offset: Id) -> (res: Result<(), BuildError>)
        ensures
            res is Err <==> offset >= 0x2000_0000,
            res matches Err(e) ==> e.text() == error::too_large() && *final(self) == *old(self),
            res is Ok ==> final(self).0 == (old(self).0 & 0x8000_01FF) | unit::offset_bits(offset),
    {
        if offset >= OFFSET_LIMIT {
            return Err(BuildError::from("Failed to modify unit: too large offset"));
        }
        assert(0x8000_0000u32 | 0x100 | 0xFF == 0x8000_01FF) by (bit_vector);
        self.0 = self.0 & (LEAF_FLAG | HAS_LEAF_FLAG | LABEL_MASK);
        if offset < 0x20_0000 {
            self.0 = self.0 | (offset << 10);
        } else {
            self.0 = self.0 | ((offset << 2) | OFFSET_FLAG);
        }
        Ok(())
    }
}

/// What the pool knows of a unit in one of the last blocks.
#[derive(Clone, Copy, Debug)]
pub struct BuildExtra {
    pub prev: Id,
    pub next: Id,
    pub is_fixed: bool,
    pub is_used: bool,
}

impl BuildExtra {
    /// The entry of a unit that is neither taken nor a base.
    pub fn blank() -> (res: BuildExtra)
        ensures
            res == (BuildExtra { prev: 0, next: 0, is_fixed: false, is_used: false }),
    {
        BuildExtra { prev: 0, next: 0, is_fixed: false, is_used: false }
    }
}

/// The first unit for which a pool of `len` units keeps an entry.
pub open spec fn live_start(len: int) -> int {
    if len > 4096 {
        len - 4096
    } else {
        0
    }
}

/// The words of units.
pub open spec fn words_of(units: Seq<BuildUnit>) -> Seq<u32> {
    Seq::new(units.len(), |i: int| units[i].0)
}

/// The units of a build, with the entries and the free list.
pub struct SlotPool {
    pub units: Vec<BuildUnit>,
    pub extras: Vec<BuildExtra>,
    pub extras_head: Id,
    /// The free units, in list order.
    pub free: Ghost<Seq<u32>>,
    /// Every base that was handed out.
    pub bases: Ghost<Set<u32>>,
    /// The base whose children are being placed.
    pub pending: Ghost<Option<u32>>,
    /// All units below this one are taken for good.
    pub sealed: Ghost<int>,
}

impl SlotPool {
    pub open spec fn len(&self) -> int {
        self.units@.len() as int
    }

    pub open spec fn entry(&self, s: int) -> BuildExtra {
        self.extras@[s % 4096]
    }

    pub open spec fn unit(&self, s: u32) -> u32 {
        self.units@[s as int].0
    }

    /// Whether unit `s` is taken.
    pub open spec fn fixed(&self, s: u32) -> bool {
        s < self.len() && (s < live_start(self.len()) || self.entry(s as int).is_fixed)
    }

    /// What the pool holds, and where the next unit would go.
    pub open spec fn plan(&self) -> Plan {
        Plan {
            units: words_of(self.units@),
            taken: Set::new(|s: u32| self.fixed(s)),
            bases: self.bases@,
        }
    }

    /// Whether the base `b` has a child with tag `c`.
    pub open spec fn kid(&self, b: u32, c: u8) -> bool {
        self.fixed(unit::slot(b, c)) && unit::tag_of(self.unit(unit::slot(b, c))) == c
    }

    pub open spec fn next_free(&self, i: int) -> u32 {
        if i + 1 < self.free@.len() {
            self.free@[i + 1]
        } else {
            self.free@[0]
        }
    }

    pub open spec fn prev_free(&self, i: int) -> u32 {
        if i > 0 {
            self.free@[i - 1]
        } else {
            self.free@[self.free@.len() - 1]
        }
    }

    /// The entry of the `i`th free unit names its neighbours.
    pub open spec fn linked(&self, i: int) -> bool {
        &&& self.entry(self.free@[i] as int).next == self.next_free(i)
        &&& self.entry(self.free@[i] as int).prev == self.prev_free(i)
    }

    /// The free list holds the free units, each once and in ascending order, and the entries
    /// link it both ways.
    #[verifier::opaque]
    pub open spec fn links_wf(&self) -> bool {
        &&& self.free@.len() > 0 ==> self.extras_head == self.free@[0]
        &&& self.free@.len() == 0 ==> self.extras_head == self.len()
        &&& forall|i: int|
            #![trigger self.free@[i]]
            0 <= i < self.free@.len() ==> {
                &&& live_start(self.len()) <= self.free@[i] < self.len()
                &&& !self.entry(self.free@[i] as int).is_fixed
            }
        &&& forall|i: int| 0 <= i < self.free@.len() ==> #[trigger] self.linked(i)
        &&& self.free@.no_duplicates()
        &&& forall|i: int, j: int| 0 <= i < j < self.free@.len() ==> self.free@[i] < self.free@[j]
        &&& forall|s: u32|
            #![trigger self.fixed(s)]
            s < self.len() && !self.fixed(s) ==> self.free@.contains(s)
    }

    /// The sizes, and what free units and bases look like.
    pub open spec fn shape_wf(&self) -> bool {
        &&& self.extras@.len() == 4096
        &&& self.len() % 256 == 0
        &&& self.len() <= 0x2000_0000
        &&& self.sealed@ % 256 == 0
        &&& live_start(self.len()) <= self.sealed@ <= self.len()
        &&& forall|s: u32| #![trigger self.fixed(s)] s < self.sealed@ ==> self.fixed(s)
        &&& forall|s: u32|
            #![trigger self.units@[s as int]]
            s < self.len() && !self.fixed(s) ==> self.unit(s) == 0
        &&& forall|b: u32|
            #![trigger self.bases@.contains(b)]
            self.bases@.contains(b) ==> b < self.len() || self.pending@ == Some(b)
        &&& forall|b: u32|
            #![trigger self.bases@.contains(b)]
            self.sealed@ <= b < self.len() ==> (self.entry(b as int).is_used <==> self.bases@.contains(b)
                && self.pending@ != Some(b))
        &&& self.pending@ is Some ==> self.bases@.contains(self.pending@->0)
    }

    /// The base of unit `s` was handed out.
    pub open spec fn based(&self, s: u32) -> bool {
        self.bases@.contains(unit::slot(s, unit::tag_of(self.unit(s))))
    }

    /// The base `b` has a child other than `skip`.
    pub open spec fn has_kid(&self, b: u32, skip: Option<u32>) -> bool {
        exists|c: u8| self.kid(b, c) && skip != Some(unit::slot(b, c))
    }

    /// Every taken unit outside the sealed blocks, except `skip`, hangs below a base that
    /// was handed out, and every base there has a child.
    pub open spec fn tags_wf(&self, skip: Option<u32>) -> bool {
        &&& forall|s: u32|
            s >= self.sealed@ && self.fixed(s) && skip != Some(s) ==> #[trigger] self.based(s)
        &&& forall|b: u32|
            b >= self.sealed@ && self.bases@.contains(b) && self.pending@ != Some(b)
                ==> #[trigger] self.has_kid(b, skip)
    }

    pub open spec fn wf(&self) -> bool {
        &&& self.shape_wf()
        &&& self.links_wf()
        &&& self.tags_wf(None)
    }

    /// Ready for the next node.
    pub open spec fn idle(&self) -> bool {
        &&& self.wf()
        &&& self.pending@ is None
        &&& self.sealed@ == live_start(self.len())
    }

    /// From `old` to `self` the node `dic_id` got children with these labels at the new base
    /// `b`; a child with label zero is a leaf with this value.
    pub open spec fn arranged(&self, old: &SlotPool, dic_id: u32, labels: Seq<u8>, value: i32, b: u32) -> bool {
        &&& self.idle()
        &&& self.len() <= old.len() + 256
        &&& !old.bases@.contains(b)
        &&& b < self.len()
        &&& self.bases@ == old.bases@.insert(b)
        &&& self.grew(old, Some(dic_id))
        &&& dic_id ^ unit::offset_of(self.unit(dic_id)) == b
        &&& unit::has_leaf_of(self.unit(dic_id)) == (labels[0] == 0)
        &&& !unit::is_leaf_unit(self.unit(dic_id))
        &&& forall|c: u8| #[trigger] self.kid(b, c) <==> labels.contains(c)
        &&& labels[0] == 0 ==> unit::is_leaf_unit(self.unit(b)) && unit::value_of(self.unit(b)) == value
            && !old.fixed(b)
        &&& forall|c: u8|
            c != 0 && labels.contains(c) ==> {
                let u = self.unit(#[trigger] unit::slot(b, c));
                !unit::is_leaf_unit(u) && !unit::has_leaf_of(u) && !old.fixed(unit::slot(b, c))
            }
    }

    /// From `old` to `self` the pool only grew: taken units stay taken and keep their
    /// contents, but for `d`, which keeps its tag; new units hang below new bases.
    pub open spec fn grew(&self, old: &SlotPool, d: Option<u32>) -> bool {
        &&& old.len() <= self.len()
        &&& old.bases@.subset_of(self.bases@)
        &&& forall|s: u32|
            #![trigger self.fixed(s)]
            #![trigger self.units@[s as int]]
            old.fixed(s) ==> {
                &&& self.fixed(s)
                &&& unit::tag_of(self.unit(s)) == unit::tag_of(old.unit(s))
                &&& (d != Some(s) ==> self.unit(s) == old.unit(s))
            }
        &&& forall|s: u32|
            #![trigger self.fixed(s)]
            self.fixed(s) && !old.fixed(s) ==> !old.bases@.contains(unit::slot(s, unit::tag_of(self.unit(s))))
    }
}

/// Units with entries have entries of their own.
proof fn lemma_live_mod(len: int, s: int, t: int)
    requires
        live_start(len) <= s < len,
        live_start(len) <= t < len,
        s % 4096 == t % 4096,
    ensures
        s == t,
{
}

/// Taking one element out of the circular list leaves a circular list.
proof fn lemma_unlink(old: SlotPool, new: SlotPool, id: u32, p: int)
    requires
        old.extras@.len() == 4096,
        new.extras@.len() == 4096,
        old.links_wf(),
        0 <= p < old.free@.len(),
        old.free@[p] == id,
        new.free@ == old.free@.remove(p),
        new.units == old.units,
        forall|s: int|
            #![trigger new.entry(s)]
            live_start(old.len()) <= s < old.len() ==> {
                &&& new.entry(s).next == (if s == old.prev_free(p) {
                    old.next_free(p)
                } else {
                    old.entry(s).next
                })
                &&& new.entry(s).prev == (if s == old.next_free(p) {
                    old.prev_free(p)
                } else {
                    old.entry(s).prev
                })
                &&& new.entry(s).is_fixed == (s == id || old.entry(s).is_fixed)
            },
        new.extras_head == (if p > 0 {
            old.extras_head
        } else if old.free@.len() > 1 {
            old.free@[1]
        } else {
            old.len() as u32
        }),
        old.len() <= 0x2000_0000,
    ensures
        new.links_wf(),
{
    reveal(SlotPool::links_wf);
    let f = old.free@;
    let g = new.free@;
    let n = f.len() as int;
    assert forall|i: int| #![trigger g[i]] 0 <= i < g.len() implies {
        &&& live_start(new.len()) <= g[i] < new.len()
        &&& !new.entry(g[i] as int).is_fixed
    } by {
        let j = if i < p {
            i
        } else {
            i + 1
        };
        assert(g[i] == f[j]);
        assert(f[j] != f[p]);
        let e = new.entry(f[j] as int);
    }
    assert forall|i: int| 0 <= i < g.len() implies #[trigger] new.linked(i) by {
        let j = if i < p {
            i
        } else {
            i + 1
        };
        assert(g[i] == f[j]);
        assert(old.linked(j));
        assert(old.linked(p));
        let e = new.entry(f[j] as int);
        let before = if p > 0 {
            p - 1
        } else {
            n - 1
        };
        let after = if p + 1 < n {
            p + 1
        } else {
            0
        };
        assert(f[before] == old.prev_free(p));
        assert(f[after] == old.next_free(p));
        assert(f[j] == f[before] <==> j == before);
        assert(f[j] == f[after] <==> j == after);
    }
    assert(g.no_duplicates());
    assert forall|i: int, j: int| 0 <= i < j < g.len() implies g[i] < g[j] by {
        let x = if i < p {
            i
        } else {
            i + 1
        };
        let y = if j < p {
            j
        } else {
            j + 1
        };
        assert(g[i] == f[x] && g[j] == f[y]);
    }
    assert forall|s: u32| #![trigger new.fixed(s)] s < new.len() && !new.fixed(s) implies g.contains(s) by {
        assert(!old.fixed(s)) by {
            let e = new.entry(s as int);
        }
        let j = f.index_of(s);
        assert(f[j] == s);
        assert(s != id) by {
            let e = new.entry(s as int);
        }
        let i = if j < p {
            j
        } else {
            j - 1
        };
        assert(g[i] == s);
    }
}

impl SlotPool {
    /// The entry of unit `id`.
    fn extras(&self, id: Id) -> (res: &BuildExtra)
        requires
            self.extras@.len() == 4096,
        ensures
            *res == self.entry(id as int),
    {
        &self.extras[(id as usize) % NUM_EXTRAS]
    }

    /// The entry of unit `id`, to be changed.
    fn extras_mut(&mut self, id: Id) -> (res: &mut BuildExtra)
        requires
            old(self).extras@.len() == 4096,
        ensures
            *res == old(self).entry(id as int),
            *final(self) == (SlotPool { extras: final(self).extras, ..*old(self) }),
            final(self).extras@ == old(self).extras@.update(id as int % 4096, *final(res)),
    {
        &mut self.extras[(id as usize) % NUM_EXTRAS]
    }

    /// Takes the free unit `id` out of the free list.
    fn unlink(&mut self, id: Id)
        requires
            old(self).shape_wf(),
            old(self).links_wf(),
            id < old(self).len(),
            !old(self).fixed(id),
        ensures
            final(self).shape_wf(),
            final(self).links_wf(),
            final(self).fixed(id),
            forall|s: u32| #![trigger final(self).fixed(s)] s != id ==> final(self).fixed(s) == old(self).fixed(s),
            final(self).units == old(self).units,
            final(self).bases == old(self).bases,
            final(self).pending == old(self).pending,
            final(self).sealed == old(self).sealed,
            final(self).plan() == (Plan { taken: old(self).plan().taken.insert(id), ..old(self).plan() }),
    {
        reveal(SlotPool::links_wf);
        let ghost p: int = self.free@.index_of(id);
        assert(self.free@.contains(id));
        assert(self.free@[p] == id);
        assert(self.linked(p));
        if id == self.extras_head {
            assert(p == 0);
            self.extras_head = self.extras(id).next;
            if self.extras_head == id {
                self.extras_head = self.units.len() as Id;
            }
        }
        let prev = self.extras(id).prev;
        let next = self.extras(id).next;
        self.extras_mut(prev).next = next;
        self.extras_mut(next).prev = prev;
        self.extras_mut(id).is_fixed = true;
        self.free = Ghost(self.free@.remove(p));
        proof {
            let o = *old(self);
            let n = *self;
            assert forall|s: int| #![trigger n.entry(s)] live_start(o.len()) <= s < o.len() implies {
                &&& n.entry(s).next == (if s == o.prev_free(p) {
                    o.next_free(p)
                } else {
                    o.entry(s).next
                })
                &&& n.entry(s).prev == (if s == o.next_free(p) {
                    o.prev_free(p)
                } else {
                    o.entry(s).prev
                })
                &&& n.entry(s).is_fixed == (s == id || o.entry(s).is_fixed)
                &&& n.entry(s).is_used == o.entry(s).is_used
            } by {
                if s % 4096 == prev as int % 4096 {
                    lemma_live_mod(o.len(), s, prev as int);
                }
                if s % 4096 == next as int % 4096 {
                    lemma_live_mod(o.len(), s, next as int);
                }
                if s % 4096 == id as int % 4096 {
                    lemma_live_mod(o.len(), s, id as int);
                }
            }
            lemma_unlink(o, n, id, p);
            assert forall|s: u32| #![trigger n.fixed(s)] n.fixed(s) == (s == id || o.fixed(s)) by {
                let e = n.entry(s as int);
            }
            assert forall|b: u32| #![trigger n.bases@.contains(b)] n.sealed@ <= b < n.len() implies (
            n.entry(b as int).is_used <==> n.bases@.contains(b) && n.pending@ != Some(b)) by {
                let e = n.entry(b as int);
            }
            assert(n.plan() =~= (Plan { taken: o.plan().taken.insert(id), ..o.plan() }));
        }
    }
}

impl SlotPool {
    /// Overwrites a taken unit.
    fn put_unit(&mut self, id: Id, unit: BuildUnit)
        requires
            old(self).shape_wf(),
            old(self).links_wf(),
            old(self).fixed(id),
        ensures
            final(self).shape_wf(),
            final(self).links_wf(),
            final(self).units@ == old(self).units@.update(id as int, unit),
            forall|s: u32| #![trigger final(self).fixed(s)] final(self).fixed(s) == old(self).fixed(s),
            *final(self) == (SlotPool { units: final(self).units, ..*old(self) }),
            final(self).plan() == old(self).plan().write(id, unit.0),
    {
        self.units[id as usize] = unit;
        proof {
            reveal(SlotPool::links_wf);
            let o = *old(self);
            let n = *self;
            assert forall|s: u32| #![trigger n.fixed(s)] n.fixed(s) == o.fixed(s) by {
                assert(n.entry(s as int) == o.entry(s as int));
            }
            assert forall|s: u32|
                #![trigger n.units@[s as int]]
                s < n.len() && !n.fixed(s) implies n.unit(s) == 0 by {
                assert(!o.fixed(s));
                assert(o.units@[s as int] == n.units@[s as int]);
            }
            assert forall|b: u32| #![trigger n.bases@.contains(b)] n.sealed@ <= b < n.len() implies (
            n.entry(b as int).is_used <==> n.bases@.contains(b) && n.pending@ != Some(b)) by {
                assert(n.entry(b as int) == o.entry(b as int));
                assert(o.bases@.contains(b) == n.bases@.contains(b));
            }
            assert forall|i: int| 0 <= i < n.free@.len() implies #[trigger] n.linked(i) by {
                assert(o.linked(i));
                assert(n.entry(n.free@[i] as int) == o.entry(n.free@[i] as int));
            }
            assert forall|i: int|
                #![trigger n.free@[i]]
                0 <= i < n.free@.len() implies live_start(n.len()) <= n.free@[i] < n.len()
                && !n.entry(n.free@[i] as int).is_fixed by {
                assert(o.free@[i] == n.free@[i]);
                assert(n.entry(n.free@[i] as int) == o.entry(n.free@[i] as int));
            }
            assert(n.plan() =~= o.plan().write(id, unit.0));
        }
    }
}

/// An injective map of a finite range into itself reaches every element.
proof fn lemma_injective_onto(n: int, f: spec_fn(int) -> int, y: int)
    requires
        0 <= y < n,
        forall|i: int| 0 <= i < n ==> 0 <= #[trigger] f(i) < n,
        forall|i: int, j: int|
            0 <= i < n && 0 <= j < n && #[trigger] f(i) == #[trigger] f(j) ==> i == j,
    ensures
        exists|i: int| 0 <= i < n && #[trigger] f(i) == y,
{
    let all = vstd::set_lib::set_int_range(0, n);
    vstd::set_lib::lemma_int_range(0, n);
    assert(vstd::relations::injective_on(f, all));
    vstd::set_lib::lemma_map_size(all, all.map(f), f);
    vstd::set_lib::lemma_subset_equality(all.map(f), all);
    assert(all.map(f).contains(y));
}

/// In a block in which every unit is a base no unit is free.
proof fn lemma_full_block(pool: SlotPool, begin: int)
    requires
        pool.shape_wf(),
        pool.tags_wf(None),
        begin % 256 == 0,
        pool.sealed@ <= begin,
        begin + 256 <= pool.len(),
        forall|b: u32|
            #![trigger pool.bases@.contains(b)]
            begin <= b < begin + 256 ==> pool.bases@.contains(b) && pool.pending@ != Some(b),
    ensures
        forall|s: u32| #![trigger pool.fixed(s)] begin <= s < begin + 256 ==> pool.fixed(s),
{
    broadcast use {unit::lemma_slot_twice, unit::lemma_slot_block};

    let pick = |b: u32| choose|c: u8| pool.kid(b, c);
    let f = |i: int| unit::slot((begin + i) as u32, pick((begin + i) as u32)) - begin;
    assert forall|i: int| 0 <= i < 256 implies pool.kid((begin + i) as u32, pick((begin + i) as u32))
        && 0 <= #[trigger] f(i) < 256 by {
        let b = (begin + i) as u32;
        assert(pool.bases@.contains(b));
        assert(pool.has_kid(b, None));
        let t = unit::slot(b, pick(b));
        assert(t / 256 == b / 256);
    }
    assert forall|i: int, j: int|
        0 <= i < 256 && 0 <= j < 256 && #[trigger] f(i) == #[trigger] f(j) implies i == j by {
        let b = (begin + i) as u32;
        let d = (begin + j) as u32;
        assert(pool.kid(b, pick(b)));
        assert(pool.kid(d, pick(d)));
        assert(unit::slot(b, pick(b)) == unit::slot(d, pick(d)));
    }
    assert forall|s: u32| #![trigger pool.fixed(s)] begin <= s < begin + 256 implies pool.fixed(s) by {
        lemma_injective_onto(256, f, s - begin);
        let i = choose|i: int| 0 <= i < 256 && #[trigger] f(i) == s - begin;
        assert(pool.kid((begin + i) as u32, pick((begin + i) as u32)));
    }
}

/// Appending a chain of new units to the circular list leaves a circular list.
proof fn lemma_relink(old: SlotPool, new: SlotPool)
    requires
        old.extras@.len() == 4096,
        new.extras@.len() == 4096,
        old.links_wf(),
        old.len() + 256 <= 0x2000_0000,
        new.len() == old.len() + 256,
        new.free@ == old.free@ + Seq::new(256, |k: int| (old.len() + k) as u32),
        new.extras_head == (if old.free@.len() > 0 {
            old.extras_head
        } else {
            old.len() as u32
        }),
        forall|s: u32|
            #![trigger old.fixed(s)]
            s < live_start(new.len()) ==> old.fixed(s),
        forall|s: int|
            #![trigger new.entry(s)]
            live_start(new.len()) <= s < old.len() ==> {
                &&& new.entry(s).next == (if old.free@.len() > 0 && s == old.prev_free(0) {
                    old.len() as u32
                } else {
                    old.entry(s).next
                })
                &&& new.entry(s).prev == (if old.free@.len() > 0 && s == old.extras_head {
                    (new.len() - 1) as u32
                } else {
                    old.entry(s).prev
                })
                &&& new.entry(s).is_fixed == old.entry(s).is_fixed
            },
        forall|s: int|
            #![trigger new.entry(s)]
            old.len() <= s < new.len() ==> {
                &&& new.entry(s).next == (if s + 1 < new.len() {
                    (s + 1) as u32
                } else if old.free@.len() > 0 {
                    old.extras_head
                } else {
                    old.len() as u32
                })
                &&& new.entry(s).prev == (if s > old.len() {
                    (s - 1) as u32
                } else if old.free@.len() > 0 {
                    old.prev_free(0)
                } else {
                    (new.len() - 1) as u32
                })
                &&& !new.entry(s).is_fixed
            },
    ensures
        new.links_wf(),
{
    reveal(SlotPool::links_wf);
    let f = old.free@;
    let g = new.free@;
    let n = f.len() as int;
    assert forall|i: int| #![trigger f[i]] 0 <= i < n implies f[i] >= live_start(new.len()) by {
        assert(!old.fixed(f[i]));
    }
    assert forall|i: int| #![trigger g[i]] 0 <= i < g.len() implies {
        &&& live_start(new.len()) <= g[i] < new.len()
        &&& !new.entry(g[i] as int).is_fixed
    } by {
        let e = new.entry(g[i] as int);
        if i < n {
            assert(g[i] == f[i]);
        }
    }
    assert forall|i: int| 0 <= i < g.len() implies #[trigger] new.linked(i) by {
        let e = new.entry(g[i] as int);
        if i < n {
            assert(g[i] == f[i]);
            assert(old.linked(i));
            assert(f[n - 1] == old.prev_free(0));
            assert(f[i] == f[n - 1] <==> i == n - 1);
            assert(f[i] == f[0] <==> i == 0);
        }
    }
    assert forall|i: int, j: int| 0 <= i < g.len() && 0 <= j < g.len() && i != j implies g[i] != g[j] by {
        if i < n {
            assert(g[i] == f[i]);
        }
        if j < n {
            assert(g[j] == f[j]);
        }
    }
    assert forall|s: u32| #![trigger new.fixed(s)] s < new.len() && !new.fixed(s) implies g.contains(s) by {
        if s < old.len() {
            let e = new.entry(s as int);
            assert(!old.fixed(s));
            let j = f.index_of(s);
            assert(f[j] == s);
            assert(g[j] == s);
        } else {
            assert(g[n + s - old.len()] == s);
        }
    }
}

/// A block whose free units were all taken under a base that nobody has can be sealed.
proof fn lemma_sealed(old: SlotPool, cur: SlotPool, new: SlotPool, unused: u32)
    requires
        old.wf(),
        cur.shape_wf(),
        cur.links_wf(),
        cur.len() == old.len(),
        cur.bases == old.bases,
        cur.pending == old.pending,
        cur.sealed == old.sealed,
        new == (SlotPool { sealed: Ghost(old.sealed@ + 256), ..cur }),
        old.sealed@ + 256 <= old.len(),
        old.pending@ matches Some(b) ==> b >= old.sealed@ + 256,
        forall|s: u32|
            #![trigger cur.fixed(s)]
            cur.fixed(s) == (old.fixed(s) || old.sealed@ <= s < old.sealed@ + 256),
        forall|s: u32|
            #![trigger cur.units@[s as int]]
            s < cur.len() && (old.fixed(s) || !(old.sealed@ <= s < old.sealed@ + 256)) ==> cur.unit(s)
                == old.unit(s),
        forall|s: u32|
            #![trigger cur.units@[s as int]]
            old.sealed@ <= s < old.sealed@ + 256 && !old.fixed(s) ==> !old.bases@.contains(unused)
                && unit::slot(s, unit::tag_of(cur.unit(s))) == unused,
    ensures
        new.wf(),
        new.grew(&old, None),
{
    broadcast use unit::lemma_slot_block;

    assert(new.links_wf()) by {
        reveal(SlotPool::links_wf);
        assert forall|s: u32| #![trigger new.fixed(s)] new.fixed(s) == cur.fixed(s) by {
            assert(new.entry(s as int) == cur.entry(s as int));
        }
        assert forall|i: int| 0 <= i < new.free@.len() implies #[trigger] new.linked(i) by {
            assert(cur.linked(i));
        }
    }
    assert forall|s: u32| #![trigger new.fixed(s)] new.fixed(s) == cur.fixed(s) by {
        assert(new.entry(s as int) == cur.entry(s as int));
    }
    assert forall|s: u32| #![trigger new.fixed(s)] s < new.sealed@ implies new.fixed(s) by {
        if s < old.sealed@ {
            assert(old.fixed(s));
        }
    }
    assert forall|b: u32| b >= new.sealed@ && new.bases@.contains(b) && new.pending@ != Some(b)
        implies #[trigger] new.has_kid(b, None) by {
        assert(old.has_kid(b, None));
        let c = choose|c: u8| old.kid(b, c);
        let t = unit::slot(b, c);
        assert(cur.fixed(t));
        assert(new.fixed(t));
        assert(cur.units@[t as int].0 == old.unit(t));
        assert(new.kid(b, c));
    }
    assert forall|s: u32| s >= new.sealed@ && new.fixed(s) implies #[trigger] new.based(s) by {
        assert(cur.fixed(s));
        assert(old.based(s));
        assert(cur.units@[s as int].0 == old.unit(s));
    }
    assert forall|s: u32| #[trigger] new.fixed(s) && !old.fixed(s) implies !old.bases@.contains(
        unit::slot(s, unit::tag_of(new.unit(s))),
    ) by {
        assert(cur.fixed(s));
        assert(new.unit(s) == cur.units@[s as int].0);
    }
    assert forall|s: u32| old.fixed(s) implies #[trigger] new.fixed(s) && new.unit(s) == old.unit(s) by {
        assert(cur.fixed(s));
        assert(cur.units@[s as int].0 == old.unit(s));
    }
}

impl SlotPool {
    /// Takes the free units of a block for good, under labels that no base can reach.
    fn fix_block(&mut self, block_id: usize)
        requires
            old(self).wf(),
            block_id * 256 == old(self).sealed@,
            old(self).sealed@ + 256 <= old(self).len(),
            old(self).pending@ matches Some(b) ==> b >= old(self).sealed@ + 256,
        ensures
            final(self).wf(),
            final(self).sealed@ == old(self).sealed@ + 256,
            final(self).bases == old(self).bases,
            final(self).pending == old(self).pending,
            final(self).len() == old(self).len(),
            final(self).grew(old(self), None),
            forall|s: u32|
                #![trigger final(self).units@[s as int]]
                s < final(self).len() && !old(self).fixed(s) ==> !unit::has_leaf_of(final(self).unit(s)),
            final(self).plan() == old(self).plan().seal(old(self).sealed@),
    {
        let begin: Id = (block_id * BLOCK_SIZE) as Id;
        let end: Id = begin + (BLOCK_SIZE as Id);
        let mut unused_offset: Id = 0;
        let mut offset: Id = begin;
        let mut found: bool = false;
        while offset < end && !found
            invariant
                self.shape_wf(),
                begin <= offset <= end,
                end <= self.len(),
                begin == self.sealed@,
                end == begin + 256,
                self.pending@ matches Some(b) ==> b >= self.sealed@ + 256,
                found ==> begin <= unused_offset < end && !self.bases@.contains(unused_offset),
                !found ==> forall|b: u32|
                    #![trigger self.bases@.contains(b)]
                    begin <= b < offset ==> self.bases@.contains(b),
                !found ==> unused_offset == 0,
                self.plan().spare(begin as int, end as int) == (if found {
                    unused_offset
                } else {
                    self.plan().spare(offset as int, end as int)
                }),
            decreases end - offset,
        {
            if !self.extras(offset).is_used {
                unused_offset = offset;
                found = true;
                assert(!self.bases@.contains(offset));
            } else {
                assert(self.bases@.contains(offset));
            }
            offset += 1;
        }
        proof {
            if !found {
                lemma_full_block(*self, begin as int);
            }
        }
        let mut id: Id = begin;
        while id < end
            invariant
                self.shape_wf(),
                self.links_wf(),
                old(self).shape_wf(),
                begin <= id <= end,
                end == begin + 256,
                begin == old(self).sealed@,
                begin % 256 == 0,
                end <= self.len(),
                self.len() == old(self).len(),
                self.bases == old(self).bases,
                self.pending == old(self).pending,
                self.sealed == old(self).sealed,
                found ==> begin <= unused_offset < end && !self.bases@.contains(unused_offset),
                unused_offset == old(self).plan().spare(begin as int, end as int),
                forall|s: u32|
                    #![trigger self.units@[s as int]]
                    begin <= s < id && !old(self).fixed(s) ==> self.unit(s) == ((s ^ unused_offset) as u8) as u32,
                !found ==> forall|s: u32|
                    #![trigger old(self).fixed(s)]
                    begin <= s < end ==> old(self).fixed(s),
                forall|s: u32|
                    #![trigger self.fixed(s)]
                    self.fixed(s) == (old(self).fixed(s) || begin <= s < id),
                forall|s: u32|
                    #![trigger self.units@[s as int]]
                    s < self.len() && (old(self).fixed(s) || !(begin <= s < id)) ==> self.unit(s)
                        == old(self).unit(s),
                forall|s: u32|
                    #![trigger self.units@[s as int]]
                    begin <= s < id && !old(self).fixed(s) ==> found && unit::slot(s, unit::tag_of(self.unit(s)))
                        == unused_offset && !unit::has_leaf_of(self.unit(s)),
            decreases end - id,
        {
            if !self.extras(id).is_fixed {
                assert(!self.fixed(id));
                assert(!old(self).fixed(id));
                assert(self.unit(id) == 0);
                self.unlink(id);
                let label: u8 = #[verifier::truncate] ((id ^ unused_offset) as u8);
                let mut unit: BuildUnit = self.units[id as usize];
                unit.set_label(label);
                self.put_unit(id, unit);
                proof {
                    unit::lemma_fresh_label(label);
                    assert((0u32 & !0xFFu32) | (label as u32) == label as u32) by (bit_vector);
                    assert(found);
                    assert(id / 256 == unused_offset / 256);
                    unit::lemma_slot_between(id, unused_offset);
                    assert(unit::slot(id, unit::tag_of(self.unit(id))) == unused_offset);
                }
            } else {
                assert(self.fixed(id));
                assert(old(self).fixed(id));
            }
            id += 1;
        }
        let ghost cur = *self;
        self.sealed = Ghost(end as int);
        proof {
            unit::lemma_zero_unit();
            lemma_sealed(*old(self), cur, *self, unused_offset);
            assert forall|s: u32| #![trigger self.fixed(s)] self.fixed(s) == cur.fixed(s) by {
                assert(self.entry(s as int) == cur.entry(s as int));
            }
            let want = old(self).plan().seal(old(self).sealed@);
            assert forall|i: int| 0 <= i < self.len() implies self.plan().units[i] == #[trigger] want.units[i] by {
                let s = i as u32;
                assert(self.units@[s as int] == cur.units@[s as int]);
            }
            assert(self.plan().units =~= want.units);
            assert(self.plan().taken =~= want.taken);
            assert forall|s: u32|
                #![trigger self.units@[s as int]]
                s < self.len() && !old(self).fixed(s) implies !unit::has_leaf_of(self.unit(s)) by {
                assert(cur.units@[s as int] == self.units@[s as int]);
                assert(old(self).units@[s as int].0 == 0);
            }
        }
    }
}

/// The first and the last free unit.
proof fn lemma_list_ends(pool: SlotPool)
    requires
        pool.links_wf(),
    ensures
        pool.free@.len() > 0 <==> pool.extras_head < pool.len(),
        pool.free@.len() > 0 ==> {
            &&& pool.extras_head == pool.free@[0]
            &&& pool.entry(pool.extras_head as int).prev == pool.prev_free(0)
            &&& pool.prev_free(0) < pool.len()
            &&& !pool.fixed(pool.extras_head)
            &&& !pool.fixed(pool.prev_free(0))
        },
{
    reveal(SlotPool::links_wf);
    if pool.free@.len() > 0 {
        assert(pool.linked(0));
        assert(!pool.fixed(pool.free@[0]));
        assert(!pool.fixed(pool.free@[pool.free@.len() - 1]));
    }
}

/// What appending a block of free units does to the rest of the pool.
proof fn lemma_expanded(mid: SlotPool, new: SlotPool)
    requires
        mid.wf(),
        mid.len() + 256 <= 0x2000_0000,
        live_start(mid.len() + 256) <= mid.sealed@,
        mid.pending@ matches Some(b) ==> b >= mid.len(),
        new.len() == mid.len() + 256,
        new.extras@.len() == 4096,
        new.bases == mid.bases,
        new.pending == mid.pending,
        new.sealed == mid.sealed,
        forall|k: int| 0 <= k < mid.len() ==> #[trigger] new.units@[k] == mid.units@[k],
        forall|k: int| mid.len() <= k < new.len() ==> #[trigger] new.units@[k] == BuildUnit(0),
        forall|s: int|
            #![trigger new.entry(s)]
            live_start(new.len()) <= s < mid.len() ==> new.entry(s).is_fixed == mid.entry(s).is_fixed
                && new.entry(s).is_used == mid.entry(s).is_used,
        forall|s: int|
            #![trigger new.entry(s)]
            mid.len() <= s < new.len() ==> !new.entry(s).is_fixed && !new.entry(s).is_used,
    ensures
        new.shape_wf(),
        new.tags_wf(None),
        new.grew(&mid, None),
        forall|s: u32| #![trigger new.fixed(s)] new.fixed(s) == mid.fixed(s),
{
    broadcast use unit::lemma_slot_block;

    assert forall|s: u32| #![trigger new.fixed(s)] new.fixed(s) == mid.fixed(s) by {
        let e = new.entry(s as int);
        if s < mid.sealed@ {
            assert(mid.fixed(s));
        }
    }
    assert forall|s: u32|
        #![trigger new.units@[s as int]]
        s < new.len() && !new.fixed(s) implies new.unit(s) == 0 by {
        assert(!mid.fixed(s));
        if s < mid.len() {
            assert(mid.units@[s as int] == new.units@[s as int]);
        }
    }
    assert forall|b: u32| #![trigger new.bases@.contains(b)] new.sealed@ <= b < new.len() implies (
    new.entry(b as int).is_used <==> new.bases@.contains(b) && new.pending@ != Some(b)) by {
        let e = new.entry(b as int);
        assert(mid.bases@.contains(b) == new.bases@.contains(b));
    }
    assert forall|s: u32| s >= new.sealed@ && new.fixed(s) implies #[trigger] new.based(s) by {
        assert(mid.based(s));
        assert(mid.fixed(s));
        assert(new.units@[s as int] == mid.units@[s as int]);
    }
    assert forall|b: u32|
        b >= new.sealed@ && new.bases@.contains(b) && new.pending@ != Some(b)
        implies #[trigger] new.has_kid(b, None) by {
        assert(mid.has_kid(b, None));
        let c = choose|c: u8| mid.kid(b, c);
        let t = unit::slot(b, c);
        assert(mid.fixed(t));
        assert(new.fixed(t));
        assert(new.units@[t as int] == mid.units@[t as int]);
        assert(new.kid(b, c));
    }
    assert forall|s: u32| mid.fixed(s) implies #[trigger] new.fixed(s) && new.unit(s) == mid.unit(s) by {
        assert(new.units@[s as int] == mid.units@[s as int]);
    }
}

/// Growing twice is growing.
pub proof fn lemma_grew_twice(a: SlotPool, b: SlotPool, c: SlotPool, d: Option<u32>, e: Option<u32>)
    requires
        b.grew(&a, d),
        c.grew(&b, e),
        e == d || e is None || !a.fixed(e->0),
    ensures
        c.grew(&a, d),
{
    assert forall|s: u32| a.fixed(s) implies {
        &&& #[trigger] c.fixed(s)
        &&& unit::tag_of(c.unit(s)) == unit::tag_of(a.unit(s))
        &&& (d != Some(s) ==> c.unit(s) == a.unit(s))
    } by {
        assert(b.fixed(s));
    }
    assert forall|s: u32| #[trigger] c.fixed(s) && !a.fixed(s) implies !a.bases@.contains(
        unit::slot(s, unit::tag_of(c.unit(s))),
    ) by {
        if b.fixed(s) {
            assert(unit::tag_of(c.unit(s)) == unit::tag_of(b.unit(s)));
        }
    }
}

impl SlotPool {
    /// Appends a block of units whose entries form a circular list of their own.
    fn grow_chain(&mut self)
        requires
            old(self).extras@.len() == 4096,
            old(self).len() + 256 <= 0x2000_0000,
        ensures
            final(self).extras@.len() == 4096,
            *final(self) == (SlotPool {
                units: final(self).units,
                extras: final(self).extras,
                ..*old(self)
            }),
            final(self).len() == old(self).len() + 256,
            forall|k: int|
                0 <= k < old(self).len() ==> #[trigger] final(self).units@[k] == old(self).units@[k],
            forall|k: int|
                old(self).len() <= k < final(self).len() ==> #[trigger] final(self).units@[k] == BuildUnit(
                    0,
                ),
            forall|s: int|
                #![trigger final(self).entry(s)]
                live_start(final(self).len()) <= s < old(self).len() ==> final(self).entry(s) == old(
                    self,
                ).entry(s),
            forall|s: int|
                #![trigger final(self).entry(s)]
                old(self).len() <= s < final(self).len() ==> {
                    &&& !final(self).entry(s).is_fixed
                    &&& !final(self).entry(s).is_used
                    &&& final(self).entry(s).next == (if s + 1 < final(self).len() {
                        (s + 1) as u32
                    } else {
                        old(self).len() as u32
                    })
                    &&& final(self).entry(s).prev == (if s > old(self).len() {
                        (s - 1) as u32
                    } else {
                        (final(self).len() - 1) as u32
                    })
                },
    {
        let src_num_units: usize = self.units.len();
        let dest_num_units: usize = src_num_units + BLOCK_SIZE;
        let ghost mid = *self;
        self.units.resize(dest_num_units, BuildUnit(0));
        let mut id: usize = src_num_units;
        while id < dest_num_units
            invariant
                src_num_units <= id <= dest_num_units,
                dest_num_units == src_num_units + 256,
                dest_num_units <= 0x2000_0000,
                self.extras@.len() == 4096,
                mid.extras@.len() == 4096,
                *self == (SlotPool { units: self.units, extras: self.extras, ..mid }),
                self.len() == dest_num_units,
                forall|k: int| 0 <= k < src_num_units ==> #[trigger] self.units@[k] == mid.units@[k],
                forall|k: int|
                    src_num_units <= k < dest_num_units ==> #[trigger] self.units@[k] == BuildUnit(0),
                forall|s: int|
                    #![trigger self.entry(s)]
                    live_start(dest_num_units as int) <= s < src_num_units ==> self.entry(s) == mid.entry(s),
                forall|s: int|
                    #![trigger self.entry(s)]
                    src_num_units <= s < id ==> !self.entry(s).is_fixed && !self.entry(s).is_used,
            decreases dest_num_units - id,
        {
            let ghost before = *self;
            *self.extras_mut(id as Id) = BuildExtra::blank();
            proof {
                assert forall|s: int|
                    #![trigger self.entry(s)]
                    live_start(dest_num_units as int) <= s < dest_num_units && s != id implies self.entry(s)
                    == before.entry(s) by {
                    if s % 4096 == id as int % 4096 {
                        lemma_live_mod(dest_num_units as int, s, id as int);
                    }
                }
            }
            id += 1;
        }
        let mut i: usize = src_num_units + 1;
        while i < dest_num_units
            invariant
                src_num_units < i <= dest_num_units,
                dest_num_units == src_num_units + 256,
                dest_num_units <= 0x2000_0000,
                self.extras@.len() == 4096,
                mid.extras@.len() == 4096,
                *self == (SlotPool { units: self.units, extras: self.extras, ..mid }),
                self.len() == dest_num_units,
                forall|k: int| 0 <= k < src_num_units ==> #[trigger] self.units@[k] == mid.units@[k],
                forall|k: int|
                    src_num_units <= k < dest_num_units ==> #[trigger] self.units@[k] == BuildUnit(0),
                forall|s: int|
                    #![trigger self.entry(s)]
                    live_start(dest_num_units as int) <= s < src_num_units ==> self.entry(s) == mid.entry(s),
                forall|s: int|
                    #![trigger self.entry(s)]
                    src_num_units <= s < dest_num_units ==> {
                        &&& !self.entry(s).is_fixed
                        &&& !self.entry(s).is_used
                        &&& (s < i - 1 ==> self.entry(s).next == s + 1)
                        &&& (src_num_units < s < i ==> self.entry(s).prev == s - 1)
                    },
            decreases dest_num_units - i,
        {
            let ghost before = *self;
            self.extras_mut(i as Id - 1).next = i as Id;
            self.extras_mut(i as Id).prev = i as Id - 1;
            proof {
                assert forall|s: int|
                    #![trigger self.entry(s)]
                    live_start(dest_num_units as int) <= s < dest_num_units implies {
                    &&& self.entry(s).next == (if s == i - 1 {
                        i as u32
                    } else {
                        before.entry(s).next
                    })
                    &&& self.entry(s).prev == (if s == i {
                        (i - 1) as u32
                    } else {
                        before.entry(s).prev
                    })
                    &&& self.entry(s).is_fixed == before.entry(s).is_fixed
                    &&& self.entry(s).is_used == before.entry(s).is_used
                } by {
                    if s % 4096 == i as int % 4096 {
                        lemma_live_mod(dest_num_units as int, s, i as int);
                    }
                    if s % 4096 == (i - 1) % 4096 {
                        lemma_live_mod(dest_num_units as int, s, i - 1);
                    }
                }
            }
            i += 1;
        }
        let start_id: Id = src_num_units as Id;
        let end_id: Id = (dest_num_units - 1) as Id;
        let ghost chained = *self;
        self.extras_mut(start_id).prev = end_id;
        self.extras_mut(end_id).next = start_id;
        proof {
            assert forall|s: int|
                #![trigger self.entry(s)]
                live_start(dest_num_units as int) <= s < dest_num_units implies {
                &&& self.entry(s).next == (if s == end_id {
                    start_id
                } else {
                    chained.entry(s).next
                })
                &&& self.entry(s).prev == (if s == start_id {
                    end_id
                } else {
                    chained.entry(s).prev
                })
                &&& self.entry(s).is_fixed == chained.entry(s).is_fixed
                &&& self.entry(s).is_used == chained.entry(s).is_used
            } by {
                if s % 4096 == start_id as int % 4096 {
                    lemma_live_mod(dest_num_units as int, s, start_id as int);
                }
                if s % 4096 == end_id as int % 4096 {
                    lemma_live_mod(dest_num_units as int, s, end_id as int);
                }
            }
        }
    }

    /// Joins the circular list of the last block to the free list.
    fn join_chain(&mut self, Ghost(mid): Ghost<SlotPool>)
        requires
            mid.links_wf(),
            mid.extras@.len() == 4096,
            mid.len() + 256 <= 0x2000_0000,
            forall|s: u32| #![trigger mid.fixed(s)] s < live_start(mid.len() + 256) ==> mid.fixed(s),
            old(self).extras@.len() == 4096,
            *old(self) == (SlotPool { units: old(self).units, extras: old(self).extras, ..mid }),
            old(self).len() == mid.len() + 256,
            forall|s: int|
                #![trigger old(self).entry(s)]
                live_start(old(self).len()) <= s < mid.len() ==> old(self).entry(s) == mid.entry(s),
            forall|s: int|
                #![trigger old(self).entry(s)]
                mid.len() <= s < old(self).len() ==> {
                    &&& !old(self).entry(s).is_fixed
                    &&& !old(self).entry(s).is_used
                    &&& old(self).entry(s).next == (if s + 1 < old(self).len() {
                        (s + 1) as u32
                    } else {
                        mid.len() as u32
                    })
                    &&& old(self).entry(s).prev == (if s > mid.len() {
                        (s - 1) as u32
                    } else {
                        (old(self).len() - 1) as u32
                    })
                },
        ensures
            final(self).links_wf(),
            final(self).extras@.len() == 4096,
            *final(self) == (SlotPool {
                extras: final(self).extras,
                extras_head: final(self).extras_head,
                free: final(self).free,
                ..*old(self)
            }),
            forall|s: int|
                #![trigger final(self).entry(s)]
                live_start(old(self).len()) <= s < old(self).len() ==> final(self).entry(s).is_fixed == old(
                    self,
                ).entry(s).is_fixed && final(self).entry(s).is_used == old(self).entry(s).is_used,
    {
        let ghost chained = *self;
        let end_id: Id = (self.units.len() - 1) as Id;
        let start_id: Id = (self.units.len() - BLOCK_SIZE) as Id;
        let head = self.extras_head;
        proof {
            lemma_list_ends(mid);
        }
        if head < start_id {
            assert(chained.entry(head as int) == mid.entry(head as int));
            let last = self.extras(head).prev;
            assert(last == mid.prev_free(0));
            self.extras_mut(start_id).prev = last;
            self.extras_mut(end_id).next = head;
            self.extras_mut(last).next = start_id;
            self.extras_mut(head).prev = end_id;
            proof {
                assert forall|s: int|
                    #![trigger self.entry(s)]
                    live_start(chained.len()) <= s < chained.len() implies {
                    &&& self.entry(s).next == (if s == end_id {
                        head
                    } else if s == last {
                        start_id
                    } else {
                        chained.entry(s).next
                    })
                    &&& self.entry(s).prev == (if s == start_id {
                        last
                    } else if s == head {
                        end_id
                    } else {
                        chained.entry(s).prev
                    })
                    &&& self.entry(s).is_fixed == chained.entry(s).is_fixed
                    &&& self.entry(s).is_used == chained.entry(s).is_used
                } by {
                    if s % 4096 == start_id as int % 4096 {
                        lemma_live_mod(chained.len(), s, start_id as int);
                    }
                    if s % 4096 == end_id as int % 4096 {
                        lemma_live_mod(chained.len(), s, end_id as int);
                    }
                    if s % 4096 == head as int % 4096 {
                        lemma_live_mod(chained.len(), s, head as int);
                    }
                    if s % 4096 == last as int % 4096 {
                        lemma_live_mod(chained.len(), s, last as int);
                    }
                }
            }
        } else {
            self.extras_head = start_id;
            assert(forall|s: int| #![trigger self.entry(s)] self.entry(s) == chained.entry(s));
        }
        let ghost tied = *self;
        self.free = Ghost(mid.free@ + Seq::new(256, |k: int| (mid.len() + k) as u32));
        proof {
            assert forall|s: int| #![trigger self.entry(s)] self.entry(s) == tied.entry(s) && (
            live_start(chained.len()) <= s < mid.len() ==> chained.entry(s) == mid.entry(s)) by {
                let e = chained.entry(s);
            }
            lemma_relink(mid, *self);
        }
    }

    /// Adds a block of free units.
    fn expand_units(&mut self)
        requires
            old(self).wf(),
            old(self).sealed@ == live_start(old(self).len()),
            old(self).len() + 256 <= 0x2000_0000,
            old(self).pending@ matches Some(b) ==> b >= old(self).len(),
        ensures
            final(self).wf(),
            final(self).len() == old(self).len() + 256,
            final(self).sealed@ == live_start(final(self).len()),
            final(self).bases == old(self).bases,
            final(self).pending == old(self).pending,
            final(self).grew(old(self), None),
            forall|s: u32|
                #![trigger final(self).fixed(s)]
                old(self).len() <= s < final(self).len() ==> !final(self).fixed(s),
            final(self).plan() == old(self).plan().expand(),
    {
        let src_num_blocks: usize = self.units.len() / BLOCK_SIZE;
        if src_num_blocks + 1 > NUM_EXTRA_BLOCKS {
            self.fix_block(src_num_blocks - NUM_EXTRA_BLOCKS);
        }
        let ghost mid = *self;
        self.grow_chain();
        self.join_chain(Ghost(mid));
        proof {
            lemma_expanded(mid, *self);
            lemma_grew_twice(*old(self), mid, *self, None, None);
            assert(self.plan().units =~= mid.plan().units + Seq::new(256, |i: int| 0u32));
            assert(self.plan().taken =~= mid.plan().taken);
        }
    }
}

/// The base that starts a new block after `len` units, for a node `id`.
pub open spec fn fresh_base(len: u32, id: u32) -> u32 {
    len | (id & 0xFF)
}

pub proof fn lemma_fresh_base(len: u32, id: u32)
    requires
        len % 256 == 0,
        len <= 0x2000_0000,
    ensures
        len <= fresh_base(len, id) < len + 256,
        fresh_base(len, id) / 256 == len / 256,
        (id ^ fresh_base(len, id)) & 0xFF == 0,
        fresh_base(len, id) == len + id % 256,
{
    assert(len % 256 == 0 && len <= 0x2000_0000 ==> len <= (len | (id & 0xFF)) && (len | (id & 0xFF)) == len + id
        % 256 && (id ^ (len | (id & 0xFF))) & 0xFF == 0) by (bit_vector);
}

/// The lowest byte of a number.
pub proof fn lemma_low_byte(x: u32)
    ensures
        (x as u8) as u32 == x % 256,
{
    assert((x as u8) as u32 == x % 256) by (bit_vector);
}

/// How far two units are apart.
pub proof fn lemma_distance(id: u32, b: u32)
    ensures
        id < 0x2000_0000 && b < 0x2000_0000 ==> id ^ b < 0x2000_0000,
        id < 0x2000_0000 && 0x2000_0000 <= b < 0x4000_0000 ==> id ^ b >= 0x2000_0000,
        id ^ (id ^ b) == b,
{
    assert({
        &&& id < 0x2000_0000 && b < 0x2000_0000 ==> id ^ b < 0x2000_0000
        &&& id < 0x2000_0000 && 0x2000_0000 <= b < 0x4000_0000 ==> id ^ b >= 0x2000_0000
        &&& id ^ (id ^ b) == b
    }) by (bit_vector);
}

/// Whether a node can hold the distance to the base `b`.
pub open spec fn near(id: u32, b: u32) -> bool {
    (id ^ b) & 0xFF == 0 || (id ^ b) & 0x1FE0_0000 == 0
}

/// Bytes in strictly ascending order.
pub open spec fn ascending(labels: Seq<u8>) -> bool {
    forall|i: int, j: int| 0 <= i < j < labels.len() ==> labels[i] < labels[j]
}

impl SlotPool {
    /// Whether a node `id` can have its children at the base `b`, of which the first
    /// child's unit is known to be free.
    pub open spec fn fits(&self, id: u32, labels: Seq<u8>, b: u32) -> bool {
        &&& !self.bases@.contains(b)
        &&& near(id, b)
        &&& forall|j: int| 1 <= j < labels.len() ==> !self.fixed(unit::slot(b, #[trigger] labels[j]))
    }

    /// The child of `b` with the label `c` is in place.
    pub open spec fn placed(&self, b: u32, c: u8, value: i32) -> bool {
        let u = self.unit(unit::slot(b, c));
        &&& self.kid(b, c)
        &&& c == 0 ==> unit::is_leaf_unit(u) && unit::value_of(u) == value
        &&& c != 0 ==> !unit::is_leaf_unit(u) && !unit::has_leaf_of(u)
    }

    /// Takes unit `id` for a child that is about to be written.
    fn reserve_id(&mut self, id: Id)
        requires
            old(self).wf(),
            old(self).sealed@ == live_start(old(self).len()),
            !old(self).fixed(id),
            id < old(self).len() + 256,
            id >= old(self).len() ==> old(self).len() + 256 <= 0x2000_0000 && (old(self).pending@ matches Some(b)
                ==> b >= old(self).len()),
        ensures
            final(self).shape_wf(),
            final(self).links_wf(),
            final(self).tags_wf(Some(id)),
            final(self).sealed@ == live_start(final(self).len()),
            final(self).len() == (if id < old(self).len() {
                old(self).len()
            } else {
                old(self).len() + 256
            }),
            final(self).bases == old(self).bases,
            final(self).pending == old(self).pending,
            final(self).fixed(id),
            final(self).unit(id) == 0,
            forall|s: u32|
                #![trigger final(self).fixed(s)]
                old(self).fixed(s) ==> final(self).fixed(s) && final(self).unit(s) == old(self).unit(s),
            forall|s: u32|
                #![trigger final(self).fixed(s)]
                s != id && final(self).fixed(s) && !old(self).fixed(s) ==> !old(self).bases@.contains(
                    unit::slot(s, unit::tag_of(final(self).unit(s))),
                ),
            id < old(self).len() ==> forall|s: u32|
                #![trigger final(self).fixed(s)]
                s != id ==> final(self).fixed(s) == old(self).fixed(s),
            id >= old(self).len() ==> forall|s: u32|
                #![trigger final(self).fixed(s)]
                old(self).len() <= s < final(self).len() && s != id ==> !final(self).fixed(s),
            ({
                let p = if id >= old(self).len() {
                    old(self).plan().expand()
                } else {
                    old(self).plan()
                };
                final(self).plan() == (Plan { taken: p.taken.insert(id), ..p })
            }),
    {
        if id as usize >= self.units.len() {
            self.expand_units();
        }
        let ghost mid = *self;
        self.unlink(id);
        proof {
            broadcast use unit::lemma_slot_block;

            assert(self.unit(id) == mid.unit(id));
            assert forall|s: u32| s >= self.sealed@ && self.fixed(s) && Some(id) != Some(s)
                implies #[trigger] self.based(s) by {
                assert(mid.fixed(s));
                assert(mid.based(s));
            }
            assert forall|b: u32|
                b >= self.sealed@ && self.bases@.contains(b) && self.pending@ != Some(b)
                implies #[trigger] self.has_kid(b, Some(id)) by {
                assert(mid.has_kid(b, None));
                let c = choose|c: u8| mid.kid(b, c);
                assert(mid.fixed(unit::slot(b, c)));
                assert(self.fixed(unit::slot(b, c)));
                assert(self.kid(b, c));
            }
            assert forall|s: u32| #![trigger self.fixed(s)] old(self).fixed(s) implies self.fixed(s)
                && self.unit(s) == old(self).unit(s) by {
                assert(mid.fixed(s));
            }
        }
    }

    /// Whether the children of node `id` fit at `offset`.
    fn is_valid_offset(&self, id: Id, labels: &Vec<u8>, offset: Id) -> (res: bool)
        requires
            self.wf(),
            self.pending@ is None,
            self.sealed@ == live_start(self.len()),
            self.sealed@ <= offset < self.len(),
            labels@.len() > 0,
        ensures
            res == self.fits(id, labels@, offset),
    {
        if self.extras(offset).is_used {
            assert(self.bases@.contains(offset));
            return false;
        }
        assert(!self.bases@.contains(offset));
        let rel_offset = id ^ offset;
        if (rel_offset & LOWER_MASK != 0) && (rel_offset & UPPER_MASK != 0) {
            return false;
        }
        let mut j: usize = 1;
        while j < labels.len()
            invariant
                self.wf(),
                self.sealed@ == live_start(self.len()),
                self.sealed@ <= offset < self.len(),
                1 <= j <= labels@.len(),
                forall|k: int| 1 <= k < j ==> !self.fixed(unit::slot(offset, #[trigger] labels@[k])),
            decreases labels@.len() - j,
        {
            proof {
                unit::lemma_slot_block(offset, labels@[j as int]);
            }
            if self.extras(offset ^ (labels[j] as Id)).is_fixed {
                assert(self.fixed(unit::slot(offset, labels@[j as int])));
                return false;
            }
            j += 1;
        }
        true
    }

    /// Finds a base for the children of node `id`: the first fit along the free list, or
    /// a base in a block that is yet to be added.
    fn find_valid_offset(&self, id: Id, labels: &Vec<u8>) -> (res: Id)
        requires
            self.wf(),
            self.pending@ is None,
            self.sealed@ == live_start(self.len()),
            labels@.len() > 0,
        ensures
            res < self.len() ==> exists|i: int|
                #![trigger self.free@[i]]
                0 <= i < self.free@.len() && res == unit::slot(self.free@[i], labels@[0]) && self.fits(
                    id,
                    labels@,
                    res,
                ) && forall|k: int|
                    0 <= k < i ==> !self.fits(id, labels@, unit::slot(#[trigger] self.free@[k], labels@[0])),
            res >= self.len() ==> res == fresh_base(self.len() as u32, id) && forall|k: int|
                0 <= k < self.free@.len() ==> !self.fits(
                    id,
                    labels@,
                    unit::slot(#[trigger] self.free@[k], labels@[0]),
                ),
            res == self.plan().base_for(id, labels@),
    {
        reveal(SlotPool::links_wf);
        proof {
            lemma_fresh_base(self.len() as u32, id);
        }
        if self.extras_head >= self.units.len() as Id {
            proof {
                lemma_none_fits(*self, id, labels@, 0);
            }
            return (self.units.len() as Id) | (id & LOWER_MASK);
        }
        let mut unfixed_id: Id = self.extras_head;
        let ghost mut i: int = 0;
        let mut done: bool = false;
        while !done
            invariant
                self.wf(),
                self.pending@ is None,
                self.sealed@ == live_start(self.len()),
                labels@.len() > 0,
                self.free@.len() > 0,
                0 <= i <= self.free@.len(),
                done <==> i == self.free@.len(),
                !done ==> unfixed_id == self.free@[i],
                forall|k: int|
                    0 <= k < i ==> !self.fits(id, labels@, unit::slot(#[trigger] self.free@[k], labels@[0])),
            decreases self.free@.len() - i,
        {
            reveal(SlotPool::links_wf);
            assert(self.linked(i));
            assert(!self.fixed(self.free@[i]));
            let offset = unfixed_id ^ (labels[0] as Id);
            proof {
                unit::lemma_slot_block(unfixed_id, labels@[0]);
            }
            if self.is_valid_offset(id, labels, offset) {
                proof {
                    lemma_none_fits(*self, id, labels@, i);
                    lemma_fits(*self, id, labels@, offset);
                    assert(self.plan().candidate(id, labels@, unfixed_id as int));
                }
                return offset;
            }
            unfixed_id = self.extras(unfixed_id).next;
            proof {
                if i + 1 < self.free@.len() {
                    assert(self.free@[i + 1] != self.free@[0]);
                }
                i = i + 1;
            }
            if unfixed_id == self.extras_head {
                done = true;
            }
        }
        proof {
            lemma_none_fits(*self, id, labels@, self.free@.len() as int);
        }
        (self.units.len() as Id) | (id & LOWER_MASK)
    }
}

/// Units before the `i`th free one give no base if those of the free list do not.
proof fn lemma_none_fits(pool: SlotPool, id: u32, labels: Seq<u8>, i: int)
    requires
        pool.wf(),
        0 <= i <= pool.free@.len(),
        forall|k: int|
            0 <= k < i ==> !pool.fits(id, labels, unit::slot(#[trigger] pool.free@[k], labels[0])),
    ensures
        pool.plan().first_fit(id, labels, live_start(pool.len())) == pool.plan().first_fit(
            id,
            labels,
            if i < pool.free@.len() {
                pool.free@[i] as int
            } else {
                pool.len()
            },
        ),
{
    reveal(SlotPool::links_wf);
    let p = pool.plan();
    let to = if i < pool.free@.len() {
        pool.free@[i] as int
    } else {
        pool.len()
    };
    assert forall|s: int| live_start(pool.len()) <= s < to implies !#[trigger] p.candidate(id, labels, s) by {
        if !pool.fixed(s as u32) {
            assert(pool.free@.contains(s as u32));
            let k = pool.free@.index_of(s as u32);
            assert(pool.free@[k] == s);
            let b = unit::slot(pool.free@[k], labels[0]);
            assert(k < i);
            lemma_fits(pool, id, labels, b);
        }
    }
    plan::lemma_skip(p, id, labels, live_start(pool.len()), to);
}

/// What fits the pool fits the plan.
proof fn lemma_fits(pool: SlotPool, id: u32, labels: Seq<u8>, b: u32)
    ensures
        pool.plan().fits(id, labels, b) == pool.fits(id, labels, b),
{
    if pool.fits(id, labels, b) {
        assert forall|j: int| 1 <= j < labels.len() implies !pool.plan().taken.contains(
            unit::slot(b, #[trigger] labels[j]),
        ) by {
            assert(!pool.fixed(unit::slot(b, labels[j])));
        }
    }
    if pool.plan().fits(id, labels, b) {
        assert forall|j: int| 1 <= j < labels.len() implies !pool.fixed(unit::slot(b, #[trigger] labels[j])) by {
            assert(!pool.plan().taken.contains(unit::slot(b, labels[j])));
        }
    }
}

/// The units of the free list are free.
proof fn lemma_free_unit(pool: SlotPool, i: int)
    requires
        pool.links_wf(),
        0 <= i < pool.free@.len(),
    ensures
        live_start(pool.len()) <= pool.free@[i] < pool.len(),
        !pool.fixed(pool.free@[i]),
{
    reveal(SlotPool::links_wf);
}

/// What the search for a base guarantees.
proof fn lemma_found(pool: SlotPool, id: u32, labels: Seq<u8>, b: u32)
    requires
        pool.wf(),
        pool.pending@ is None,
        pool.sealed@ == live_start(pool.len()),
        labels.len() > 0,
        b < pool.len() ==> exists|i: int|
            #![trigger pool.free@[i]]
            0 <= i < pool.free@.len() && b == unit::slot(pool.free@[i], labels[0]) && pool.fits(id, labels, b),
        b >= pool.len() ==> b == fresh_base(pool.len() as u32, id),
    ensures
        !pool.bases@.contains(b),
        near(id, b),
        pool.sealed@ <= b < pool.len() + 256,
        b < pool.len() || b / 256 * 256 == pool.len(),
        forall|j: int| 0 <= j < labels.len() ==> !pool.fixed(unit::slot(b, #[trigger] labels[j])),
{
    lemma_fresh_base(pool.len() as u32, id);
    if b < pool.len() {
        let i = choose|i: int|
            #![trigger pool.free@[i]]
            0 <= i < pool.free@.len() && b == unit::slot(pool.free@[i], labels[0]) && pool.fits(id, labels, b);
        let f = pool.free@[i];
        lemma_free_unit(pool, i);
        unit::lemma_slot_block(f, labels[0]);
        unit::lemma_slot_twice(f, labels[0]);
        assert(unit::slot(b, labels[0]) == f);
    } else {
        assert forall|j: int| 0 <= j < labels.len() implies !pool.fixed(unit::slot(b, #[trigger] labels[j])) by {
            unit::lemma_slot_block(b, labels[j]);
        }
        assert(!pool.bases@.contains(b));
    }
}

/// A base that is about to be filled has no children yet.
#[verifier::rlimit(40)]
proof fn lemma_no_kids(old: SlotPool, new: SlotPool, id: u32, b: u32)
    requires
        old.wf(),
        old.fixed(id),
        !old.bases@.contains(b),
        b >= old.sealed@,
        new.units@.len() == old.units@.len(),
        new.bases@ == old.bases@.insert(b),
        forall|s: u32| #![trigger new.fixed(s)] new.fixed(s) == old.fixed(s),
        forall|k: int| 0 <= k < old.len() && k != id ==> #[trigger] new.units@[k] == old.units@[k],
        unit::tag_of(new.unit(id)) == unit::tag_of(old.unit(id)),
    ensures
        forall|c: u8| !#[trigger] new.kid(b, c),
        new.grew(&old, Some(id)),
{
    broadcast use {unit::lemma_slot_twice, unit::lemma_slot_block};

    assert forall|c: u8| !#[trigger] new.kid(b, c) by {
        let t = unit::slot(b, c);
        if new.kid(b, c) {
            assert(old.fixed(t));
            assert(t / 256 == b / 256);
            assert(old.based(t));
            assert(unit::tag_of(old.unit(t)) == c) by {
                if t != id {
                    assert(new.units@[t as int] == old.units@[t as int]);
                }
            }
            assert(unit::slot(t, c) == b);
        }
    }
    assert forall|s: u32| #[trigger] old.fixed(s) implies {
        &&& unit::tag_of(new.unit(s)) == unit::tag_of(old.unit(s))
        &&& (s != id ==> new.unit(s) == old.unit(s))
    } by {
        if s != id {
            assert(new.units@[s as int] == old.units@[s as int]);
        }
    }
}

/// Claiming one child of the pending base gives that base this child and no other.
proof fn lemma_claimed(old: SlotPool, new: SlotPool, b: u32, label: u8)
    requires
        old.bases@.contains(b),
        forall|s: u32|
            #![trigger new.fixed(s)]
            old.fixed(s) ==> new.fixed(s) && new.unit(s) == old.unit(s),
        forall|s: u32|
            #![trigger new.fixed(s)]
            s != unit::slot(b, label) && new.fixed(s) && !old.fixed(s) ==> !old.bases@.contains(
                unit::slot(s, unit::tag_of(new.unit(s))),
            ),
    ensures
        forall|c: u8| #[trigger] new.kid(b, c) && c != label ==> old.kid(b, c),
        forall|c: u8, v: i32| old.placed(b, c, v) ==> #[trigger] new.placed(b, c, v),
{
    broadcast use unit::lemma_slot_twice;

    assert forall|c: u8| #[trigger] new.kid(b, c) && c != label implies old.kid(b, c) by {
        let t = unit::slot(b, c);
        if t == unit::slot(b, label) {
            unit::lemma_slot_injective(b, c, label);
        }
        assert(unit::slot(t, c) == b);
    }
    assert forall|c: u8, v: i32| old.placed(b, c, v) implies #[trigger] new.placed(b, c, v) by {
        assert(new.fixed(unit::slot(b, c)));
    }
}

/// Claiming a child of a new base is growing.
proof fn lemma_grew_claim(start: SlotPool, old: SlotPool, new: SlotPool, d: u32, b: u32, label: u8)
    requires
        old.grew(&start, Some(d)),
        old.bases@ == start.bases@.insert(b),
        !start.bases@.contains(b),
        new.bases == old.bases,
        old.len() <= new.len(),
        new.fixed(unit::slot(b, label)),
        unit::tag_of(new.unit(unit::slot(b, label))) == label,
        !start.fixed(unit::slot(b, label)),
        forall|s: u32|
            #![trigger new.fixed(s)]
            old.fixed(s) ==> new.fixed(s) && new.unit(s) == old.unit(s),
        forall|s: u32|
            #![trigger new.fixed(s)]
            s != unit::slot(b, label) && new.fixed(s) && !old.fixed(s) ==> !old.bases@.contains(
                unit::slot(s, unit::tag_of(new.unit(s))),
            ),
    ensures
        new.grew(&start, Some(d)),
{
    broadcast use unit::lemma_slot_twice;

    assert forall|s: u32| #[trigger] new.fixed(s) && !start.fixed(s) implies !start.bases@.contains(
        unit::slot(s, unit::tag_of(new.unit(s))),
    ) by {
        if s == unit::slot(b, label) {
            assert(unit::slot(s, label) == b);
        } else if old.fixed(s) {
            assert(new.unit(s) == old.unit(s));
        }
    }
    assert forall|s: u32| start.fixed(s) implies {
        &&& #[trigger] new.fixed(s)
        &&& unit::tag_of(new.unit(s)) == unit::tag_of(start.unit(s))
        &&& (s != d ==> new.unit(s) == start.unit(s))
    } by {
        assert(old.fixed(s));
    }
}

impl SlotPool {
    /// Takes unit `id` and writes a child into it.
    fn claim(&mut self, id: Id, child: BuildUnit)
        requires
            old(self).wf(),
            old(self).sealed@ == live_start(old(self).len()),
            !old(self).fixed(id),
            id < old(self).len() + 256,
            id >= old(self).len() ==> old(self).len() + 256 <= 0x2000_0000 && (old(self).pending@ matches Some(b)
                ==> b >= old(self).len()),
            old(self).bases@.contains(unit::slot(id, unit::tag_of(child.0))),
        ensures
            final(self).wf(),
            final(self).sealed@ == live_start(final(self).len()),
            final(self).len() == (if id < old(self).len() {
                old(self).len()
            } else {
                old(self).len() + 256
            }),
            final(self).bases == old(self).bases,
            final(self).pending == old(self).pending,
            final(self).fixed(id),
            final(self).unit(id) == child.0,
            forall|s: u32|
                #![trigger final(self).fixed(s)]
                old(self).fixed(s) ==> final(self).fixed(s) && final(self).unit(s) == old(self).unit(s),
            forall|s: u32|
                #![trigger final(self).fixed(s)]
                s != id && final(self).fixed(s) && !old(self).fixed(s) ==> !old(self).bases@.contains(
                    unit::slot(s, unit::tag_of(final(self).unit(s))),
                ),
            id < old(self).len() ==> forall|s: u32|
                #![trigger final(self).fixed(s)]
                s != id ==> final(self).fixed(s) == old(self).fixed(s),
            id >= old(self).len() ==> forall|s: u32|
                #![trigger final(self).fixed(s)]
                old(self).len() <= s < final(self).len() && s != id ==> !final(self).fixed(s),
            final(self).plan() == old(self).plan().claim(id, child.0),
    {
        self.reserve_id(id);
        let ghost mid = *self;
        self.put_unit(id, child);
        proof {
            assert forall|s: u32| s >= self.sealed@ && self.fixed(s) implies #[trigger] self.based(s) by {
                assert(mid.fixed(s));
                if s != id {
                    assert(mid.based(s));
                    assert(self.units@[s as int] == mid.units@[s as int]);
                }
            }
            assert forall|b: u32|
                b >= self.sealed@ && self.bases@.contains(b) && self.pending@ != Some(b)
                implies #[trigger] self.has_kid(b, None) by {
                assert(mid.has_kid(b, Some(id)));
                let c = choose|c: u8| mid.kid(b, c) && Some(id) != Some(unit::slot(b, c));
                assert(self.fixed(unit::slot(b, c)));
                assert(self.units@[unit::slot(b, c) as int] == mid.units@[unit::slot(b, c) as int]);
                assert(self.kid(b, c));
            }
            assert forall|s: u32| #![trigger self.fixed(s)] s != id && self.fixed(s) implies self.unit(s)
                == mid.unit(s) && mid.fixed(s) by {}
        }
    }

    /// Overwrites a taken unit without changing its tag.
    fn retouch(&mut self, id: Id, unit: BuildUnit)
        requires
            old(self).wf(),
            old(self).fixed(id),
            unit::tag_of(unit.0) == unit::tag_of(old(self).unit(id)),
        ensures
            final(self).wf(),
            final(self).units@ == old(self).units@.update(id as int, unit),
            forall|s: u32| #![trigger final(self).fixed(s)] final(self).fixed(s) == old(self).fixed(s),
            *final(self) == (SlotPool { units: final(self).units, ..*old(self) }),
            final(self).plan() == old(self).plan().write(id, unit.0),
    {
        self.put_unit(id, unit);
        proof {
            let o = *old(self);
            let n = *self;
            assert forall|s: u32| s >= n.sealed@ && n.fixed(s) implies #[trigger] n.based(s) by {
                assert(o.fixed(s));
                assert(o.based(s));
            }
            assert forall|b: u32| b >= n.sealed@ && n.bases@.contains(b) && n.pending@ != Some(b)
                implies #[trigger] n.has_kid(b, None) by {
                assert(o.has_kid(b, None));
                let c = choose|c: u8| o.kid(b, c);
                assert(n.fixed(unit::slot(b, c)));
                assert(n.kid(b, c));
            }
        }
    }

    /// Starts placing children at the base `b`.
    fn begin_base(&mut self, b: Id)
        requires
            old(self).wf(),
            old(self).pending@ is None,
            !old(self).bases@.contains(b),
            b >= old(self).sealed@,
        ensures
            final(self).wf(),
            *final(self) == (SlotPool {
                bases: Ghost(old(self).bases@.insert(b)),
                pending: Ghost(Some(b)),
                ..*old(self)
            }),
            forall|s: u32| #![trigger final(self).fixed(s)] final(self).fixed(s) == old(self).fixed(s),
            final(self).plan() == (Plan { bases: old(self).plan().bases.insert(b), ..old(self).plan() }),
    {
        self.bases = Ghost(self.bases@.insert(b));
        self.pending = Ghost(Some(b));
        proof {
            reveal(SlotPool::links_wf);
            let o = *old(self);
            let n = *self;
            assert forall|s: u32| #![trigger n.fixed(s)] n.fixed(s) == o.fixed(s) by {
                assert(n.entry(s as int) == o.entry(s as int));
            }
            assert forall|i: int| 0 <= i < n.free@.len() implies #[trigger] n.linked(i) by {
                assert(o.linked(i));
            }
            assert forall|d: u32| #![trigger n.bases@.contains(d)] n.sealed@ <= d < n.len() implies (
            n.entry(d as int).is_used <==> n.bases@.contains(d) && n.pending@ != Some(d)) by {
                assert(n.entry(d as int) == o.entry(d as int));
                assert(o.bases@.contains(d) == (n.bases@.contains(d) && d != b));
            }
            assert forall|d: u32| #![trigger n.bases@.contains(d)] n.bases@.contains(d) implies d < n.len()
                || n.pending@ == Some(d) by {
                if d != b {
                    assert(o.bases@.contains(d));
                }
            }
            assert forall|s: u32| s >= n.sealed@ && n.fixed(s) implies #[trigger] n.based(s) by {
                assert(o.fixed(s));
                assert(o.based(s));
            }
            assert forall|d: u32| d >= n.sealed@ && n.bases@.contains(d) && n.pending@ != Some(d)
                implies #[trigger] n.has_kid(d, None) by {
                assert(o.has_kid(d, None));
                let c = choose|c: u8| o.kid(d, c);
                assert(n.fixed(unit::slot(d, c)));
                assert(n.kid(d, c));
            }
            assert(n.plan().taken =~= o.plan().taken);
        }
    }

    /// Records the base `b`, whose children are all in place.
    fn end_base(&mut self, b: Id, Ghost(c): Ghost<u8>)
        requires
            old(self).wf(),
            old(self).pending@ == Some(b),
            old(self).sealed@ == live_start(old(self).len()),
            old(self).sealed@ <= b < old(self).len(),
            old(self).kid(b, c),
        ensures
            final(self).wf(),
            *final(self) == (SlotPool { extras: final(self).extras, pending: Ghost(None), ..*old(self) }),
            forall|s: u32| #![trigger final(self).fixed(s)] final(self).fixed(s) == old(self).fixed(s),
            final(self).plan() == old(self).plan(),
    {
        self.extras_mut(b).is_used = true;
        self.pending = Ghost(None);
        proof {
            reveal(SlotPool::links_wf);
            let o = *old(self);
            let n = *self;
            assert forall|s: int| #![trigger n.entry(s)] live_start(n.len()) <= s < n.len() implies {
                &&& n.entry(s).next == o.entry(s).next
                &&& n.entry(s).prev == o.entry(s).prev
                &&& n.entry(s).is_fixed == o.entry(s).is_fixed
                &&& n.entry(s).is_used == (s == b || o.entry(s).is_used)
            } by {
                if s % 4096 == b as int % 4096 {
                    lemma_live_mod(n.len(), s, b as int);
                }
            }
            assert forall|s: u32| #![trigger n.fixed(s)] n.fixed(s) == o.fixed(s) by {
                let e = n.entry(s as int);
            }
            assert forall|i: int| 0 <= i < n.free@.len() implies #[trigger] n.linked(i) by {
                assert(o.linked(i));
                let e = n.entry(n.free@[i] as int);
            }
            assert forall|i: int|
                #![trigger n.free@[i]]
                0 <= i < n.free@.len() implies live_start(n.len()) <= n.free@[i] < n.len()
                && !n.entry(n.free@[i] as int).is_fixed by {
                assert(o.free@[i] == n.free@[i]);
                let e = n.entry(n.free@[i] as int);
            }
            assert forall|d: u32| #![trigger n.bases@.contains(d)] n.sealed@ <= d < n.len() implies (
            n.entry(d as int).is_used <==> n.bases@.contains(d) && n.pending@ != Some(d)) by {
                let e = n.entry(d as int);
                assert(o.bases@.contains(d) == n.bases@.contains(d));
            }
            assert forall|s: u32| s >= n.sealed@ && n.fixed(s) implies #[trigger] n.based(s) by {
                assert(o.fixed(s));
                assert(o.based(s));
            }
            assert forall|d: u32| d >= n.sealed@ && n.bases@.contains(d) && n.pending@ != Some(d)
                implies #[trigger] n.has_kid(d, None) by {
                if d == b {
                    assert(n.fixed(unit::slot(b, c)));
                    assert(n.kid(b, c));
                } else {
                    assert(o.has_kid(d, None));
                    let e = choose|e: u8| o.kid(d, e);
                    assert(n.fixed(unit::slot(d, e)));
                    assert(n.kid(d, e));
                }
            }
            assert(n.plan().taken =~= o.plan().taken);
        }
    }

    /// Places the children of node `dic_id`, one per label, below a base that no other node
    /// has; a child with the label zero is a leaf that holds `value`.
    pub fn arrange(&mut self, dic_id: Id, labels: &Vec<u8>, value: i32) -> (res: Result<Id, BuildError>)
        requires
            old(self).idle(),
            labels@.len() > 0,
            ascending(labels@),
            labels@[0] == 0 ==> value >= 0,
            old(self).fixed(dic_id),
            !unit::is_leaf_unit(old(self).unit(dic_id)),
            !unit::has_leaf_of(old(self).unit(dic_id)),
        ensures
            res matches Err(e) ==> e.text() == error::too_large() && old(self).len() == 0x2000_0000,
            res is Err ==> *final(self) == *old(self),
            res matches Ok(b) ==> final(self).arranged(old(self), dic_id, labels@, value, b),
            match res {
                Ok(b) => old(self).plan().arrange(dic_id, labels@, value) == Some((final(self).plan(), b)),
                Err(_) => old(self).plan().arrange(dic_id, labels@, value) is None,
            },
    {
        let offset = self.find_valid_offset(dic_id, labels);
        proof {
            lemma_found(*self, dic_id, labels@, offset);
            lemma_distance(dic_id, offset);
        }
        let mut node: BuildUnit = self.units[dic_id as usize];
        match node.set_offset(dic_id ^ offset) {
            Ok(_) => {},
            Err(e) => {
                return Err(e);
            },
        }
        proof {
            unit::lemma_set_offset(self.unit(dic_id), dic_id ^ offset);
            unit::lemma_set_has_leaf(node.0);
        }
        if labels[0] == 0 {
            node.set_has_leaf(true);
        }
        self.retouch(dic_id, node);
        self.begin_base(offset);
        proof {
            lemma_no_kids(*old(self), *self, dic_id, offset);
        }
        let ghost begun: Plan = self.plan();
        let mut i: usize = 0;
        while i < labels.len()
            invariant
                self.wf(),
                self.pending@ == Some(offset),
                self.sealed@ == live_start(self.len()),
                self.bases@ == old(self).bases@.insert(offset),
                !old(self).bases@.contains(offset),
                self.grew(old(self), Some(dic_id)),
                old(self).fixed(dic_id),
                self.unit(dic_id) == node.0,
                self.plan() == begun.place(offset, labels@, value, i as int),
                0 <= i <= labels@.len(),
                labels@.len() > 0,
                ascending(labels@),
                labels@[0] == 0 ==> value >= 0,
                self.len() <= old(self).len() + 256,
                i == 0 ==> self.len() == old(self).len(),
                i > 0 ==> offset < self.len(),
                offset < 0x2000_0000,
                self.sealed@ <= offset,
                offset < old(self).len() || offset / 256 * 256 == old(self).len(),
                forall|j: int|
                    i <= j < labels@.len() ==> !self.fixed(unit::slot(offset, #[trigger] labels@[j])),
                forall|j: int| 0 <= j < i ==> self.placed(offset, #[trigger] labels@[j], value),
                forall|c: u8| #[trigger] self.kid(offset, c) ==> labels@.take(i as int).contains(c),
                forall|j: int|
                    0 <= j < labels@.len() ==> !old(self).fixed(unit::slot(offset, #[trigger] labels@[j])),
            decreases labels@.len() - i,
        {
            let label: u8 = labels[i];
            let dic_child_id: Id = offset ^ (label as Id);
            let mut child: BuildUnit = BuildUnit(0);
            proof {
                unit::lemma_fresh_label(label);
                assert((0u32 & !0xFFu32) | (label as u32) == label as u32) by (bit_vector);
                unit::lemma_slot_block(offset, label);
                unit::lemma_slot_twice(offset, label);
                if label == 0 {
                    assert(i == 0);
                    unit::lemma_leaf_value(value);
                }
            }
            if label == 0 {
                child.set_value(value);
            } else {
                child.set_label(label);
            }
            let ghost before = *self;
            self.claim(dic_child_id, child);
            proof {
                lemma_claimed(before, *self, offset, label);
                lemma_grew_claim(*old(self), before, *self, dic_id, offset, label);
                assert forall|j: int| i < j < labels@.len() implies !self.fixed(
                    unit::slot(offset, #[trigger] labels@[j]),
                ) by {
                    unit::lemma_slot_block(offset, labels@[j]);
                    if unit::slot(offset, labels@[j]) == dic_child_id {
                        unit::lemma_slot_injective(offset, labels@[j], label);
                    }
                    assert(!before.fixed(unit::slot(offset, labels@[j])));
                }
                assert forall|j: int| 0 <= j < i + 1 implies self.placed(
                    offset,
                    #[trigger] labels@[j],
                    value,
                ) by {
                    if j < i {
                        assert(before.placed(offset, labels@[j], value));
                    }
                }
                assert forall|c: u8| #[trigger] self.kid(offset, c) implies labels@.take(i + 1).contains(
                    c,
                ) by {
                    if c == label {
                        assert(labels@.take(i + 1)[i as int] == c);
                    } else {
                        assert(before.kid(offset, c));
                        let j = labels@.take(i as int).index_of(c);
                        assert(labels@.take(i + 1)[j] == c);
                    }
                }
            }
            i += 1;
        }
        proof {
            assert(labels@.take(labels@.len() as int) == labels@);
            assert(self.placed(offset, labels@[0], value));
            assert forall|c: u8| labels@.contains(c) implies self.placed(offset, c, value) by {
                let j = labels@.index_of(c);
                assert(self.placed(offset, labels@[j], value));
            }
        }
        let ghost placed = *self;
        self.end_base(offset, Ghost(labels@[0]));
        proof {
            assert forall|c: u8| #[trigger] self.kid(offset, c) == placed.kid(offset, c) by {
                let t = unit::slot(offset, c);
                assert(self.fixed(t) == placed.fixed(t));
            }
            assert forall|c: u8| c != 0 && labels@.contains(c) implies ({
                let u = self.unit(#[trigger] unit::slot(offset, c));
                !unit::is_leaf_unit(u) && !unit::has_leaf_of(u) && !old(self).fixed(unit::slot(offset, c))
            }) by {
                assert(placed.placed(offset, c, value));
                let j = labels@.index_of(c);
                assert(!old(self).fixed(unit::slot(offset, labels@[j])));
            }
            unit::lemma_slot_zero(offset);
            assert(!old(self).fixed(unit::slot(offset, labels@[0])));
        }
        Ok(offset)
    }
}

impl SlotPool {
    /// A pool without units.
    pub fn new() -> (res: SlotPool)
        ensures
            res.wf(),
            res.len() == 0,
            res.sealed@ == 0,
            res.pending@ is None,
            res.bases@ == Set::<u32>::empty(),
    {
        let mut extras: Vec<BuildExtra> = Vec::new();
        while extras.len() < NUM_EXTRAS
            invariant
                extras@.len() <= 4096,
                forall|k: int|
                    0 <= k < extras@.len() ==> #[trigger] extras@[k] == (BuildExtra {
                        prev: 0,
                        next: 0,
                        is_fixed: false,
                        is_used: false,
                    }),
            decreases 4096 - extras@.len(),
        {
            extras.push(BuildExtra::blank());
        }
        let res = SlotPool {
            units: Vec::new(),
            extras,
            extras_head: 0,
            free: Ghost(Seq::empty()),
            bases: Ghost(Set::empty()),
            pending: Ghost(None),
            sealed: Ghost(0),
        };
        proof {
            reveal(SlotPool::links_wf);
        }
        res
    }

    /// Places the root.
    pub fn plant_root(&mut self) -> (res: Result<(), BuildError>)
        requires
            old(self).wf(),
            old(self).len() == 0,
            old(self).pending@ is None,
            old(self).bases@ == Set::<u32>::empty(),
        ensures
            res is Ok,
            final(self).wf(),
            final(self).len() == 256,
            final(self).sealed@ == 0,
            final(self).pending@ is None,
            final(self).bases@ == set![0u32],
            final(self).fixed(0),
            forall|s: u32| #[trigger] final(self).fixed(s) ==> s == 0,
            unit::offset_of(final(self).unit(0)) == 1,
            unit::tag_of(final(self).unit(0)) == 0,
            !unit::has_leaf_of(final(self).unit(0)),
            !unit::is_leaf_unit(final(self).unit(0)),
            final(self).plan() == plan::planted(),
            final(self).plan().small(1),
    {
        let mut root: BuildUnit = BuildUnit(0);
        match root.set_offset(1) {
            Ok(_) => {},
            Err(e) => {
                return Err(e);
            },
        }
        let ghost first = root.0;
        root.set_label(0);
        proof {
            unit::lemma_zero_unit();
            assert(1u32 & 0x1FE0_0000 == 0) by (bit_vector);
            unit::lemma_set_offset(0, 1);
            assert(first & 0xFF == 0 ==> (first & !0xFFu32) | 0 == first) by (bit_vector);
            assert((first & 0xFF) as u8 == 0 ==> first & 0xFF == 0) by (bit_vector);
            unit::lemma_slot_zero(0);
        }
        self.begin_base(0);
        self.claim(0, root);
        self.end_base(0, Ghost(0));
        proof {
            assert(self.bases@ =~= set![0u32]);
            assert((0u32 & 0x8000_01FF) | (1u32 << 10) == 1u32 << 10 && ((1u32 << 10) & !0xFFu32) | 0 == 1u32 << 10)
                by (bit_vector);
            assert(self.plan().units =~= plan::planted().units);
            assert(self.plan().taken =~= plan::planted().taken);
        }
        Ok(())
    }

    /// Lets node `dic_id` share the children of the base `b`.
    pub fn share(&mut self, dic_id: Id, b: Id, has_leaf: bool) -> (res: Result<(), BuildError>)
        requires
            old(self).wf(),
            old(self).fixed(dic_id),
            b < old(self).len(),
            near(dic_id, b),
            !unit::is_leaf_unit(old(self).unit(dic_id)),
            !unit::has_leaf_of(old(self).unit(dic_id)),
        ensures
            res is Ok,
            final(self).wf(),
            final(self).grew(old(self), Some(dic_id)),
            *final(self) == (SlotPool { units: final(self).units, ..*old(self) }),
            final(self).len() == old(self).len(),
            dic_id ^ unit::offset_of(final(self).unit(dic_id)) == b,
            unit::has_leaf_of(final(self).unit(dic_id)) == has_leaf,
            !unit::is_leaf_unit(final(self).unit(dic_id)),
            forall|s: u32| #![trigger final(self).fixed(s)] final(self).fixed(s) == old(self).fixed(s),
            final(self).plan() == old(self).plan().share(dic_id, b, has_leaf),
    {
        let mut node: BuildUnit = self.units[dic_id as usize];
        proof {
            lemma_distance(dic_id, b);
            unit::lemma_set_has_leaf(node.0);
        }
        if has_leaf {
            node.set_has_leaf(true);
        }
        proof {
            unit::lemma_set_offset(node.0, dic_id ^ b);
        }
        match node.set_offset(dic_id ^ b) {
            Ok(_) => {},
            Err(e) => {
                return Err(e);
            },
        }
        self.retouch(dic_id, node);
        proof {
            assert forall|s: u32| old(self).fixed(s) implies {
                &&& #[trigger] self.fixed(s)
                &&& unit::tag_of(self.unit(s)) == unit::tag_of(old(self).unit(s))
                &&& (s != dic_id ==> self.unit(s) == old(self).unit(s))
            } by {}
        }
        Ok(())
    }

    /// Takes every unit that is still free.
    pub fn fix_all_blocks(&mut self)
        requires
            old(self).wf(),
            old(self).pending@ is None,
            old(self).sealed@ == live_start(old(self).len()),
        ensures
            final(self).wf(),
            final(self).len() == old(self).len(),
            final(self).bases == old(self).bases,
            final(self).grew(old(self), None),
            forall|s: u32| #![trigger final(self).fixed(s)] s < final(self).len() ==> final(self).fixed(s),
            forall|s: u32|
                #![trigger final(self).units@[s as int]]
                s < final(self).len() && !old(self).fixed(s) ==> !unit::has_leaf_of(final(self).unit(s)),
            words_of(final(self).units@) == plan::finished(old(self).plan()),
    {
        let end: usize = self.units.len() / BLOCK_SIZE;
        let begin: usize = if end > NUM_EXTRA_BLOCKS {
            end - NUM_EXTRA_BLOCKS
        } else {
            0
        };
        let mut block_id: usize = begin;
        proof {
            unit::lemma_zero_unit();
        }
        while block_id < end
            invariant
                forall|s: u32|
                    #![trigger self.units@[s as int]]
                    s < self.len() && !old(self).fixed(s) ==> !unit::has_leaf_of(self.unit(s)),
                self.wf(),
                self.pending@ is None,
                self.sealed@ == block_id * 256,
                self.plan().seal_from(block_id * 256) == old(self).plan().seal_from(live_start(old(self).len())),
                block_id <= end,
                self.len() == end * 256,
                self.len() == old(self).len(),
                self.bases == old(self).bases,
                self.grew(old(self), None),
            decreases end - block_id,
        {
            let ghost before = *self;
            self.fix_block(block_id);
            proof {
                lemma_grew_twice(*old(self), before, *self, None, None);
                assert forall|s: u32|
                    #![trigger self.units@[s as int]]
                    s < self.len() && !old(self).fixed(s) implies !unit::has_leaf_of(self.unit(s)) by {
                    assert(!unit::has_leaf_of(before.units@[s as int].0));
                    if before.fixed(s) {
                        assert(self.fixed(s));
                    }
                }
            }
            block_id += 1;
        }
    }
}

} // verus!
