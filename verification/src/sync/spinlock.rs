//! A spin lock over one boolean word: `true` while the lock is held.
use vstd::prelude::*;

verus! {

/// The lock word of a spin lock.
pub struct SpinLock {
    pub locked: bool,
}

impl SpinLock {
    /// A free lock.
    pub fn new() -> (l: SpinLock)
        ensures
            !l.locked,
    {
        SpinLock { locked: false }
    }

    /// One round of `lock`: `swapped_out` is what swapping `true` into the word
    /// gave back. The lock is taken when it was free; otherwise spin and swap again.
    pub fn lock(swapped_out: bool) -> (acquired: bool)
        ensures
            acquired == !swapped_out,
    {
        !swapped_out
    }

    /// What `unlock` stores into the word: free.
    pub fn unlock() -> (word: bool)
        ensures
            !word,
    {
        false
    }
}

/// A spin lock as the threads share it: its word and how many holders there are.
pub struct SpinState {
    pub locked: bool,
    pub holders: nat,
}

/// One atomic step: a thread swaps `true` into the word (and holds the lock when
/// it got `false` back), or a holder stores the free word.
pub open spec fn spin_step(l: SpinState, unlock: bool) -> Option<SpinState> {
    if unlock {
        if l.holders > 0 {
            Some(SpinState { locked: false, holders: (l.holders - 1) as nat })
        } else {
            None
        }
    } else {
        Some(SpinState { locked: true, holders: if !l.locked { l.holders + 1 } else { l.holders } })
    }
}

/// At most one thread holds the lock, and the word is `true` exactly while one does.
pub open spec fn spin_inv(l: SpinState) -> bool {
    &&& l.holders <= 1
    &&& (l.locked <==> l.holders == 1)
}

/// Mutual exclusion: from a free lock, every interleaving of swaps and unlocks
/// keeps at most one holder, so between a thread's successful swap and its unlock
/// no other swap succeeds.
pub proof fn lemma_spin_steps_keep_exclusion(l: SpinState, unlock: bool)
    requires
        spin_inv(l),
    ensures
        spin_step(l, unlock) matches Some(l2) ==> spin_inv(l2),
        !unlock && l.holders == 1 ==> spin_step(l, unlock) == Some(l),
        spin_inv(SpinState { locked: false, holders: 0 }),
{
}

} // verus!
