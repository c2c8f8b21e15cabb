//! Telling how far a build has come.

use vstd::prelude::*;

verus! {

/// Something that hears of progress.
pub trait Progress: Sized {
    /// Whether it can be told.
    spec fn ready(&self) -> bool;

    /// What it is once it was told that `current` of `total` items are done.
    spec fn told(&self, current: usize, total: usize) -> Self;

    /// Tells that `current` of `total` items are done.
    fn report(&mut self, current: usize, total: usize)
        requires
            old(self).ready(),
            current <= total,
        ensures
            final(self).ready(),
            *final(self) == old(self).told(current, total),
    ;
}

/// What `p` is once it was told of each of the items behind the first `from`, up to the `to`th,
/// one after the other.
pub open spec fn heard<P: Progress>(p: P, from: int, to: int, total: int) -> P
    decreases to - from,
{
    if to <= from {
        p
    } else {
        heard(p, from, to - 1, total).told(to as usize, total as usize)
    }
}

/// What is told in two parts is told as a whole.
pub proof fn lemma_heard_on<P: Progress>(p: P, from: int, mid: int, to: int, total: int)
    requires
        from <= mid <= to,
    ensures
        heard(heard(p, from, mid, total), mid, to, total) == heard(p, from, to, total),
    decreases to - mid,
{
    if mid < to {
        lemma_heard_on(p, from, mid, to - 1, total);
    }
}

/// Nobody is told.
pub struct Silent;

impl Progress for Silent {
    open spec fn ready(&self) -> bool {
        true
    }

    open spec fn told(&self, current: usize, total: usize) -> Silent {
        *self
    }

    fn report(&mut self, current: usize, total: usize) {
    }
}

/// A function is called with the number of items done and their total number.
pub struct Callback<F> {
    pub func: F,
    /// The calls so far.
    pub calls: Ghost<Seq<(usize, usize)>>,
}

impl<F: Fn(usize, usize)> Progress for Callback<F> {
    /// The function can be called, and it was called as often as is noted, each time to the
    /// end.
    open spec fn ready(&self) -> bool {
        &&& forall|current: usize, total: usize| current <= total ==> call_requires(self.func, (current, total))
        &&& forall|i: int| 0 <= i < self.calls@.len() ==> call_ensures(self.func, #[trigger] self.calls@[i], ())
    }

    open spec fn told(&self, current: usize, total: usize) -> Callback<F> {
        Callback { func: self.func, calls: Ghost(self.calls@.push((current, total))) }
    }

    fn report(&mut self, current: usize, total: usize) {
        (self.func)(current, total);
        self.calls = Ghost(self.calls@.push((current, total)));
    }
}

/// A function that hears of `n` items is called once for each of them, in order.
pub proof fn law_calls<F: Fn(usize, usize)>(p: Callback<F>, n: int, total: int)
    requires
        0 <= n,
    ensures
        heard(p, 0, n, total).func == p.func,
        heard(p, 0, n, total).calls@ == p.calls@ + Seq::new(n as nat, |i: int| ((i + 1) as usize, total as usize)),
    decreases n,
{
    let calls = Seq::new(n as nat, |i: int| ((i + 1) as usize, total as usize));
    if n > 0 {
        law_calls(p, n - 1, total);
        let before = Seq::new((n - 1) as nat, |i: int| ((i + 1) as usize, total as usize));
        assert((p.calls@ + before).push((n as usize, total as usize)) =~= p.calls@ + calls);
    } else {
        assert(p.calls@ + calls =~= p.calls@);
    }
}

/// Without a callback nothing is called.
pub proof fn law_silent(p: Silent, n: int, total: int)
    ensures
        heard(p, 0, n, total) == p,
    decreases n,
{
    if n > 0 {
        law_silent(p, n - 1, total);
    }
}

} // verus!
