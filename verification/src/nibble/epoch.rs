//! Epochs: the grace period that delays the reuse of retired memory.
//!
//! A global counter numbers the epochs. Every thread that reads records
//! registers and, between two of its operations, takes note of the current
//! epoch. Memory that is retired in one epoch is scheduled for a later
//! one, and is handed back for reuse only when every registered thread has
//! taken note of that epoch or a later one: by then no thread can hold an
//! address into it.

use vstd::prelude::*;

verus! {

/// The epoch after `now`: the counter stays at its largest value.
pub open spec fn next_epoch(now: u64) -> u64 {
    if now < u64::MAX {
        (now + 1) as u64
    } else {
        now
    }
}

/// The smallest of `bound` and the first `n` of `locals`.
pub open spec fn floor(locals: Seq<u64>, n: int, bound: u64) -> u64
    decreases n,
{
    if n <= 0 {
        bound
    } else if locals[n - 1] < floor(locals, n - 1, bound) {
        locals[n - 1]
    } else {
        floor(locals, n - 1, bound)
    }
}

/// The floor is the largest epoch that is no later than the bound and
/// than each of the local epochs.
pub proof fn lemma_floor(locals: Seq<u64>, n: int, bound: u64)
    requires
        0 <= n <= locals.len(),
    ensures
        floor(locals, n, bound) <= bound,
        forall|i: int| 0 <= i < n ==> floor(locals, n, bound) <= #[trigger] locals[i],
        floor(locals, n, bound) == bound || exists|i: int|
            0 <= i < n && floor(locals, n, bound) == #[trigger] locals[i],
    decreases n,
{
    if n > 0 {
        lemma_floor(locals, n - 1, bound);
        if !(locals[n - 1] < floor(locals, n - 1, bound)) && floor(locals, n - 1, bound)
            != bound {
            let i = choose|i: int|
                0 <= i < n - 1 && floor(locals, n - 1, bound) == #[trigger] locals[i];
            assert(floor(locals, n, bound) == locals[i]);
        }
    }
}

/// The floor grows with the bound.
pub proof fn lemma_floor_grows(locals: Seq<u64>, n: int, low: u64, high: u64)
    requires
        low <= high,
    ensures
        floor(locals, n, low) <= floor(locals, n, high),
    decreases n,
{
    if n > 0 {
        lemma_floor_grows(locals, n - 1, low, high);
    }
}

/// The global epoch counter and the local epochs of the registered
/// threads.
pub struct Epoch {
    /// The current epoch.
    pub global: u64,
    /// For every registered thread, the epoch it last took note of.
    pub locals: Vec<u64>,
}

impl Epoch {
    /// The epoch that every registered thread has reached: the earliest
    /// of the current epoch and the local ones.
    pub open spec fn spec_horizon(&self) -> u64 {
        floor(self.locals@, self.locals@.len() as int, self.global)
    }

    /// The epoch that every registered thread will have reached once the
    /// counter has moved on.
    pub open spec fn next_horizon(&self) -> u64 {
        floor(self.locals@, self.locals@.len() as int, next_epoch(self.global))
    }

    /// A counter at epoch zero, without registered threads.
    pub fn new() -> (epoch: Epoch)
        ensures
            epoch.global == 0,
            epoch.locals@ == Seq::<u64>::empty(),
    {
        Epoch { global: 0, locals: Vec::new() }
    }

    /// The current epoch.
    pub fn current(&self) -> (now: u64)
        ensures
            now == self.global,
    {
        self.global
    }

    /// Registers a thread, at the current epoch, and returns its number.
    pub fn register(&mut self) -> (thread: usize)
        ensures
            thread == old(self).locals@.len(),
            final(self).locals@ == old(self).locals@.push(old(self).global),
            final(self).global == old(self).global,
    {
        let thread = self.locals.len();
        self.locals.push(self.global);
        thread
    }

    /// Takes note of the current epoch for thread `thread`, which is
    /// between two operations. Nothing happens for a thread that is not
    /// registered.
    pub fn observe(&mut self, thread: usize)
        ensures
            final(self).global == old(self).global,
            final(self).locals@ == (if thread < old(self).locals@.len() {
                old(self).locals@.update(thread as int, old(self).global)
            } else {
                old(self).locals@
            }),
    {
        if thread < self.locals.len() {
            self.locals[thread] = self.global;
        }
    }

    /// Moves on to the next epoch. The counter stays at its largest value
    /// once it has reached it.
    pub fn advance(&mut self)
        ensures
            final(self).global == next_epoch(old(self).global),
            final(self).locals == old(self).locals,
            final(self).spec_horizon() == old(self).next_horizon(),
    {
        self.global = self.global.saturating_add(1);
    }

    /// The epoch for which memory retired now is scheduled: the one after
    /// the current.
    pub fn grace(&self) -> (due: u64)
        ensures
            due == next_epoch(self.global),
    {
        self.global.saturating_add(1)
    }

    /// The epoch that every registered thread has reached.
    #[verifier::when_used_as_spec(spec_horizon)]
    pub fn horizon(&self) -> (reached: u64)
        ensures
            reached == self.spec_horizon(),
    {
        let mut reached = self.global;
        let mut i: usize = 0;
        while i < self.locals.len()
            invariant
                i <= self.locals@.len(),
                reached == floor(self.locals@, i as int, self.global),
            decreases self.locals@.len() - i,
        {
            if self.locals[i] < reached {
                reached = self.locals[i];
            }
            i = i + 1;
        }
        reached
    }

    /// Whether every registered thread has reached the epoch `due`.
    pub fn reached(&self, due: u64) -> (yes: bool)
        ensures
            yes == (due <= self.spec_horizon()),
    {
        due <= self.horizon()
    }
}

} // verus!
