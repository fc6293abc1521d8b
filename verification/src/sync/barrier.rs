//! A point that threads pass only together.

use vstd::prelude::*;

verus! {

/// A reusable barrier for `n` threads.
#[derive(Debug)]
pub struct Barrier {
    pub n: usize,
    /// How many threads have arrived in this round.
    pub count: usize,
    /// How many rounds are over.
    pub generation: usize,
}

/// What an arrival comes to.
#[derive(Clone, Copy, Debug, PartialEq, Eq, Structural)]
pub enum Arrival {
    /// The barrier is for nobody: the thread passes.
    Open,
    /// The thread is the last one of its round: all of them pass, and those
    /// that wait are to be woken.
    Tripped,
    /// The thread waits until the round with this number is over.
    Wait(usize),
}

/// The state of a barrier: the threads arrived in this round, and the rounds
/// that are over.
pub struct BarrierView {
    pub count: int,
    pub generation: int,
}

/// The state after one more arrival at a barrier for `n` threads.
pub open spec fn after_arrival(n: int, b: BarrierView) -> BarrierView {
    if n == 0 {
        b
    } else if b.count + 1 == n {
        BarrierView { count: 0, generation: b.generation + 1 }
    } else {
        BarrierView { count: b.count + 1, generation: b.generation }
    }
}

impl View for Barrier {
    type V = BarrierView;

    open spec fn view(&self) -> BarrierView {
        BarrierView { count: self.count as int, generation: self.generation as int }
    }
}

impl Barrier {
    /// Fewer threads than needed have arrived.
    pub open spec fn wf(&self) -> bool {
        self.n == 0 && self.count == 0 || self.count < self.n
    }

    /// Creates a new barrier that holds threads back until `n` have arrived.
    #[must_use]
    pub fn new(n: usize) -> (r: Barrier)
        ensures
            r.wf(),
            r.n == n,
            r@ == (BarrierView { count: 0, generation: 0 }),
    {
        Barrier { n, count: 0, generation: 0 }
    }

    /// A thread arrives.
    pub fn arrive(&mut self) -> (r: Arrival)
        requires
            old(self).wf(),
            old(self).count + 1 == old(self).n ==> old(self).generation < usize::MAX,
        ensures
            final(self).wf(),
            final(self).n == old(self).n,
            final(self)@ == after_arrival(old(self).n as int, old(self)@),
            r == if old(self).n == 0 {
                Arrival::Open
            } else if old(self).count + 1 == old(self).n {
                Arrival::Tripped
            } else {
                Arrival::Wait(old(self).generation)
            },
            r is Tripped <==> final(self).generation != old(self).generation,
            r matches Arrival::Wait(round) ==> round == final(self).generation,
    {
        if self.n == 0 {
            return Arrival::Open;
        }
        let generation: usize = self.generation;
        self.count = self.count + 1;
        if self.count == self.n {
            self.count = 0;
            self.generation = generation + 1;
            Arrival::Tripped
        } else {
            Arrival::Wait(generation)
        }
    }

    /// Whether a thread that waits for the end of a round may pass.
    pub fn may_pass(&self, generation: usize) -> (r: bool)
        ensures
            r == (self.generation != generation),
    {
        self.generation != generation
    }
}

/// The state after several more arrivals.
pub open spec fn after_arrivals(n: int, b: BarrierView, k: nat) -> BarrierView
    decreases k,
{
    if k == 0 {
        b
    } else {
        after_arrival(n, after_arrivals(n, b, (k - 1) as nat))
    }
}

/// An arrival adds one thread to its round, or ends the round as its last one; a
/// barrier for nobody stays as it is. No arrival ends more than one round.
pub proof fn every_arrival_counts_once(n: int, b: BarrierView)
    ensures
        n == 0 ==> after_arrival(n, b) == b,
        n > 0 ==> after_arrival(n, b).generation * n + after_arrival(n, b).count == b.generation * n
            + b.count + 1,
        n > 0 && 0 <= b.count < n ==> 0 <= after_arrival(n, b).count < n,
{
    if n > 0 && b.count + 1 == n {
        assert((b.generation + 1) * n == b.generation * n + n) by (nonlinear_arith);
    }
}

/// Nobody passes before all have arrived: within a round the number of rounds
/// that are over does not change until the last thread comes, and then it does.
pub proof fn nobody_passes_before_all_arrive(n: int, generation: int, k: nat)
    requires
        n > 0,
        k <= n,
    ensures
        k < n ==> after_arrivals(n, BarrierView { count: 0, generation }, k) == (BarrierView {
            count: k as int,
            generation,
        }),
        k == n ==> after_arrivals(n, BarrierView { count: 0, generation }, k) == (BarrierView {
            count: 0,
            generation: generation + 1,
        }),
    decreases k,
{
    if k > 0 {
        nobody_passes_before_all_arrive(n, generation, (k - 1) as nat);
    }
}

/// A barrier can be used again and again: so many times `n` arrivals end so many
/// rounds, and the next round starts empty.
pub proof fn barrier_is_reusable(n: int, generation: int, rounds: nat)
    requires
        n > 0,
    ensures
        after_arrivals(n, BarrierView { count: 0, generation }, rounds * (n as nat)) == (
        BarrierView { count: 0, generation: generation + rounds }),
    decreases rounds,
{
    let start = BarrierView { count: 0, generation };
    if rounds == 0 {
        assert(0 * (n as nat) == 0) by (nonlinear_arith);
    } else {
        let before = (rounds - 1) as nat;
        barrier_is_reusable(n, generation, before);
        assert(rounds * (n as nat) == before * (n as nat) + n) by (nonlinear_arith)
            requires
                rounds == before + 1,
                n > 0,
        ;
        lemma_arrivals_add(n, start, before * (n as nat), n as nat);
        nobody_passes_before_all_arrive(n, generation + before, n as nat);
    }
}

/// Arrivals one after the other add up.
proof fn lemma_arrivals_add(n: int, b: BarrierView, j: nat, k: nat)
    ensures
        after_arrivals(n, b, j + k) == after_arrivals(n, after_arrivals(n, b, j), k),
    decreases k,
{
    if k > 0 {
        lemma_arrivals_add(n, b, j, (k - 1) as nat);
    }
}

} // verus!
