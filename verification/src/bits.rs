//! A growing sequence of bits that can count the ones before a position.

use vstd::prelude::*;

verus! {

/// Bits per unit.
pub const UNIT_SIZE: usize = 32;

/// Whether bit `i` of `u` is set.
pub open spec fn bit(u: u32, i: u32) -> bool {
    u & (1u32 << i) != 0
}

/// The number of ones in a sequence of bits.
pub open spec fn ones(s: Seq<bool>) -> nat
    decreases s.len(),
{
    if s.len() == 0 {
        0
    } else {
        ones(s.drop_last()) + if s.last() {
            1nat
        } else {
            0nat
        }
    }
}

proof fn lemma_bit_ops(u: u32, i: u32, j: u32)
    requires
        i < 32,
        j < 32,
    ensures
        bit(u | (1u32 << i), j) == (i == j || bit(u, j)),
        bit(u & !(1u32 << i), j) == (i != j && bit(u, j)),
        !bit(0, j),
{
    assert(i < 32 && j < 32 ==> {
        &&& ((u | (1u32 << i)) & (1u32 << j) != 0) == (i == j || u & (1u32 << j) != 0)
        &&& ((u & !(1u32 << i)) & (1u32 << j) != 0) == (i != j && u & (1u32 << j) != 0)
        &&& 0u32 & (1u32 << j) == 0
    }) by (bit_vector);
}

/// There are at most as many ones as bits.
pub proof fn lemma_ones_bound(s: Seq<bool>)
    ensures
        ones(s) <= s.len(),
    decreases s.len(),
{
    if s.len() > 0 {
        lemma_ones_bound(s.drop_last());
    }
}

/// Ones add up over two parts of a sequence.
pub proof fn lemma_ones_concat(s: Seq<bool>, t: Seq<bool>)
    ensures
        ones(s + t) == ones(s) + ones(t),
    decreases t.len(),
{
    if t.len() == 0 {
        assert(s + t =~= s);
    } else {
        assert((s + t).drop_last() =~= s + t.drop_last());
        lemma_ones_concat(s, t.drop_last());
    }
}

/// The number of ones grows with the prefix.
pub proof fn lemma_ones_monotonic(s: Seq<bool>, i: int, j: int)
    requires
        0 <= i <= j <= s.len(),
    ensures
        ones(s.take(i)) <= ones(s.take(j)),
        i < j && s[i] ==> ones(s.take(i)) < ones(s.take(j)),
{
    assert(s.take(j) =~= s.take(i) + s.subrange(i, j));
    lemma_ones_concat(s.take(i), s.subrange(i, j));
    if i < j && s[i] {
        let t = s.subrange(i, j);
        assert(t =~= seq![true] + t.drop_first());
        lemma_ones_concat(seq![true], t.drop_first());
        assert(seq![true].drop_last() =~= Seq::<bool>::empty());
        assert(ones(Seq::<bool>::empty()) == 0);
        assert(ones(seq![true]) == 1);
    }
}

/// Bits in units of 32, with the number of ones before each unit.
pub struct BitVector {
    pub units: Vec<u32>,
    pub ranks: Vec<u32>,
    pub num_ones: usize,
    pub size: usize,
}

impl BitVector {
    /// The bits.
    pub open spec fn view(&self) -> Seq<bool> {
        Seq::new(self.size as nat, |i: int| bit(self.units@[i / 32], (i % 32) as u32))
    }

    /// There are as many units as the bits need, and no bit beyond the last is set.
    pub open spec fn wf(&self) -> bool {
        &&& self.units@.len() == (self.size + 31) / 32
        &&& forall|i: int|
            #![trigger self.units@[i / 32]]
            self.size <= i < 32 * self.units@.len() ==> !bit(self.units@[i / 32], (i % 32) as u32)
    }

    /// The ones before each unit were counted.
    pub open spec fn ranked(&self) -> bool {
        &&& self.wf()
        &&& self.ranks@.len() == self.units@.len()
        &&& forall|k: int|
            0 <= k < self.units@.len() ==> #[trigger] self.ranks@[k] == ones(self@.take(32 * k))
        &&& self.num_ones == ones(self@)
    }

    /// No bits.
    pub fn new() -> (res: BitVector)
        ensures
            res.wf(),
            res@ == Seq::<bool>::empty(),
    {
        BitVector { units: Vec::new(), ranks: Vec::new(), num_ones: 0, size: 0 }
    }

    /// The bit at `id`.
    pub fn get(&self, id: usize) -> (res: bool)
        requires
            self.wf(),
            id < self@.len(),
        ensures
            res == self@[id as int],
    {
        let unit_idx: usize = id / UNIT_SIZE;
        let bit_idx: usize = id % UNIT_SIZE;
        (self.units[unit_idx] & (1u32 << (bit_idx as u32))) != 0
    }

    /// Sets the bit at `id`; there is nothing to do beyond the last bit.
    pub fn set(&mut self, id: usize, bit: bool)
        requires
            old(self).wf(),
        ensures
            final(self).wf(),
            final(self)@ == (if id < old(self)@.len() {
                old(self)@.update(id as int, bit)
            } else {
                old(self)@
            }),
    {
        if id >= self.size {
            return;
        }
        let unit_idx: usize = id / UNIT_SIZE;
        let bit_idx: u32 = (id % UNIT_SIZE) as u32;
        let unit: u32 = self.units[unit_idx];
        if bit {
            self.units.set(unit_idx, unit | (1u32 << bit_idx));
        } else {
            self.units.set(unit_idx, unit & !(1u32 << bit_idx));
        }
        proof {
            assert forall|i: int| 0 <= i < 32 * self.units@.len() implies #[trigger] self::bit(
                self.units@[i / 32],
                (i % 32) as u32,
            ) == (if i == id {
                bit
            } else {
                self::bit(old(self).units@[i / 32], (i % 32) as u32)
            }) by {
                if i / 32 == unit_idx {
                    lemma_bit_ops(unit, bit_idx, (i % 32) as u32);
                }
            }
            assert(self@ =~= old(self)@.update(id as int, bit));
        }
    }

    /// Counts the ones among the first `n` bits of a unit.
    fn count_ones_below(unit: u32, n: u32, Ghost(s): Ghost<Seq<bool>>) -> (res: u32)
        requires
            n <= 32,
            s.len() >= n,
            forall|i: int| 0 <= i < n ==> #[trigger] s[i] == bit(unit, i as u32),
        ensures
            res == ones(s.take(n as int)),
            res <= n,
    {
        let mut res: u32 = 0;
        let mut i: u32 = 0;
        assert(s.take(0) =~= Seq::<bool>::empty());
        while i < n
            invariant
                i <= n <= 32,
                s.len() >= n,
                forall|i: int| 0 <= i < n ==> #[trigger] s[i] == bit(unit, i as u32),
                res == ones(s.take(i as int)),
                res <= i,
            decreases n - i,
        {
            assert(s.take(i + 1).drop_last() =~= s.take(i as int));
            assert(s[i as int] == bit(unit, i));
            if unit & (1u32 << i) != 0 {
                res += 1;
            }
            i += 1;
        }
        res
    }

    /// The number of ones before position `id`.
    pub fn rank(&self, id: usize) -> (res: u32)
        requires
            self.ranked(),
            id <= self@.len(),
            self@.len() <= u32::MAX,
        ensures
            res == ones(self@.take(id as int)),
    {
        if id == 0 {
            assert(self@.take(0) =~= Seq::<bool>::empty());
            return 0;
        }
        let last: usize = id - 1;
        let unit_id: usize = last / UNIT_SIZE;
        let bits_to_check: u32 = (last % UNIT_SIZE) as u32 + 1;
        let ghost start: int = 32 * unit_id;
        let ghost part: Seq<bool> = self@.subrange(start, id as int);
        proof {
            assert(self@.take(id as int) =~= self@.take(start) + part);
            lemma_ones_concat(self@.take(start), part);
            lemma_ones_bound(self@.take(id as int));
            assert(part.take(bits_to_check as int) =~= part);
            assert forall|i: int| 0 <= i < bits_to_check implies #[trigger] part[i] == bit(
                self.units@[unit_id as int],
                i as u32,
            ) by {
                assert((start + i) / 32 == unit_id);
                assert((start + i) % 32 == i);
            }
        }
        let count: u32 = Self::count_ones_below(self.units[unit_id], bits_to_check, Ghost(part));
        self.ranks[unit_id] + count
    }

    /// Adds a zero.
    pub fn append(&mut self)
        requires
            old(self).wf(),
            old(self)@.len() < usize::MAX - 32,
        ensures
            final(self).wf(),
            final(self)@ == old(self)@.push(false),
    {
        if self.size % UNIT_SIZE == 0 {
            self.units.push(0);
        }
        self.size += 1;
        proof {
            assert forall|i: int| 0 <= i < 32 * self.units@.len() implies #[trigger] bit(
                self.units@[i / 32],
                (i % 32) as u32,
            ) == (i < old(self).size && bit(old(self).units@[i / 32], (i % 32) as u32)) by {
                lemma_bit_ops(0, 0, (i % 32) as u32);
                if i / 32 < old(self).units@.len() {
                    let u = old(self).units@[i / 32];
                }
            }
            assert(self@ =~= old(self)@.push(false));
        }
    }

    /// Counts the ones, so that `rank` can be asked.
    pub fn build(&mut self)
        requires
            old(self).wf(),
            old(self)@.len() <= u32::MAX,
        ensures
            final(self).ranked(),
            final(self)@ == old(self)@,
    {
        let mut ranks: Vec<u32> = Vec::new();
        let mut num_ones: usize = 0;
        let mut i: usize = 0;
        assert(self@.take(0) =~= Seq::<bool>::empty());
        while i < self.units.len()
            invariant
                i <= self.units@.len(),
                self.wf(),
                self@.len() <= u32::MAX,
                self@ == old(self)@,
                ranks@.len() == i,
                forall|k: int| 0 <= k < i ==> #[trigger] ranks@[k] == ones(self@.take(32 * k)),
                num_ones == ones(self@.take(if 32 * i <= self.size {
                    32 * i as int
                } else {
                    self.size as int
                })),
            decreases self.units@.len() - i,
        {
            let ghost start: int = 32 * i;
            let ghost end: int = if start + 32 <= self.size {
                start + 32
            } else {
                self.size as int
            };
            let ghost part: Seq<bool> = self@.subrange(start, end);
            let n: u32 = if self.size - UNIT_SIZE * i >= UNIT_SIZE {
                32
            } else {
                (self.size - UNIT_SIZE * i) as u32
            };
            proof {
                assert(self@.take(end) =~= self@.take(start) + part);
                lemma_ones_concat(self@.take(start), part);
                lemma_ones_bound(self@.take(end));
                assert(part.take(n as int) =~= part);
                assert forall|j: int| 0 <= j < n implies #[trigger] part[j] == bit(
                    self.units@[i as int],
                    j as u32,
                ) by {
                    assert((start + j) / 32 == i);
                    assert((start + j) % 32 == j);
                }
            }
            ranks.push(num_ones as u32);
            num_ones += Self::count_ones_below(self.units[i], n, Ghost(part)) as usize;
            i += 1;
        }
        assert(self@.take(self.size as int) =~= self@);
        self.ranks = ranks;
        self.num_ones = num_ones;
    }
}

/// The number of ones is that of the positions at which there is one.
pub proof fn law_ones(s: Seq<bool>)
    ensures
        ({
            let places = Set::new(|i: int| 0 <= i < s.len() && s[i]);
            places.finite() && places.len() == ones(s)
        }),
    decreases s.len(),
{
    let places = Set::new(|i: int| 0 <= i < s.len() && s[i]);
    if s.len() == 0 {
        assert(places =~= Set::<int>::empty());
    } else {
        let t = s.drop_last();
        let before = Set::new(|i: int| 0 <= i < t.len() && t[i]);
        law_ones(t);
        if s.last() {
            assert(places =~= before.insert(s.len() - 1));
        } else {
            assert(places =~= before);
        }
    }
}

} // verus!
