//! A futex-based mutex and condition variable.
//!
//! The mutex word is 0 when unlocked, 1 when locked, and 2 when locked with
//! threads that may be waiting on it.
use vstd::prelude::*;

verus! {

pub const UNLOCKED: u32 = 0;

pub const LOCKED: u32 = 1;

pub const CONTENDED: u32 = 2;

/// How many times the contended path spins while the lock is held without waiters.
pub const SPIN_LIMIT: u32 = 100;

/// The word of a mutex.
pub struct Mutex {
    pub state: u32,
}

/// The lock word values in which the calling thread holds the lock.
pub open spec fn held(state: u32) -> bool {
    state == LOCKED || state == CONTENDED
}

impl Mutex {
    /// An unlocked mutex.
    pub fn new() -> (m: Mutex)
        ensures
            m.state == UNLOCKED,
    {
        Mutex { state: 0 }
    }

    /// The fast path of `lock`: `fast` is what the compare-exchange of 0 for 1
    /// returned. The lock is taken when it succeeded; otherwise the contended path runs.
    pub fn lock(fast: Result<u32, u32>) -> (acquired: bool)
        ensures
            acquired == (fast is Ok),
    {
        match fast {
            Ok(_) => true,
            Err(_) => false,
        }
    }

    /// Whether the contended path spins once more: the word still reads 1
    /// (held, nobody waiting) and fewer than `SPIN_LIMIT` rounds were spun.
    pub fn keep_spinning(observed: u32, spins: u32) -> (spin: bool)
        ensures
            spin == (observed == LOCKED && spins < SPIN_LIMIT),
    {
        observed == 1 && spins < SPIN_LIMIT
    }

    /// After swapping 2 into the word: the lock is taken when the word was unlocked;
    /// otherwise wait while it reads 2 and swap again.
    pub fn acquired_by_swap(previous: u32) -> (acquired: bool)
        ensures
            acquired == (previous == UNLOCKED),
    {
        previous == 0
    }
}

/// Holding a mutex.
pub struct MutexGuard;

impl MutexGuard {
    /// Releasing swaps 0 into the word; `previous` is what it held. A waiter is
    /// woken when the word said that threads may be waiting.
    pub fn release_wakes(previous: u32) -> (wake: bool)
        ensures
            wake == (previous == CONTENDED),
    {
        previous == 2
    }
}

/// One atomic step of a thread on a mutex word: the compare-exchange of 0 for 1
/// (fast path, or after spinning), the swap of 2 into the word, or the release
/// that swaps 0 into it.
#[derive(PartialEq, Eq, Structural, Clone, Copy, Debug)]
pub enum MutexStep {
    CompareExchange,
    SwapContended,
    Release,
}

/// A mutex as the threads share it: its word and how many guards are live.
pub struct MutexState {
    pub state: u32,
    pub holders: nat,
}

/// What a step makes of the shared mutex, and whether it gave the stepping thread
/// the lock; `None` when it cannot happen (only a holder releases).
pub open spec fn mutex_step(m: MutexState, step: MutexStep) -> Option<(MutexState, bool)> {
    match step {
        MutexStep::CompareExchange => if m.state == UNLOCKED {
            Some((MutexState { state: LOCKED, holders: m.holders + 1 }, true))
        } else {
            Some((m, false))
        },
        MutexStep::SwapContended => {
            let got = m.state == UNLOCKED;
            Some((MutexState { state: CONTENDED, holders: if got { m.holders + 1 } else { m.holders } }, got))
        },
        MutexStep::Release => if m.holders > 0 {
            Some((MutexState { state: UNLOCKED, holders: (m.holders - 1) as nat }, false))
        } else {
            None
        },
    }
}

/// At most one guard is live, and the word is held exactly while one is.
pub open spec fn mutex_inv(m: MutexState) -> bool {
    &&& m.holders <= 1
    &&& (m.holders == 1 <==> held(m.state))
    &&& m.state <= CONTENDED
}

/// Mutual exclusion: every interleaving of the mutex's atomic steps keeps at most
/// one guard live, with the word reading 1 or 2 exactly while it is; a step takes
/// the lock only from the unlocked word, as `Mutex::lock` and
/// `Mutex::acquired_by_swap` decide.
pub proof fn lemma_mutex_steps_keep_exclusion(m: MutexState, step: MutexStep)
    requires
        mutex_inv(m),
    ensures
        mutex_step(m, step) matches Some((m2, got)) ==> mutex_inv(m2) && (got ==> m.holders == 0),
        mutex_inv(MutexState { state: UNLOCKED, holders: 0 }),
{
}

/// The words of a condition variable: a notification counter and the number of waiters.
pub struct Condvar {
    pub counter: u32,
    pub num_waiters: usize,
}

/// The words after a thread registers as a waiter.
pub open spec fn registered(c: Condvar) -> Condvar {
    Condvar { counter: c.counter, num_waiters: (c.num_waiters + 1) as usize }
}

/// The words after a notification: the counter moves on, wrapping, when someone waits.
pub open spec fn notified(c: Condvar) -> Condvar {
    if c.num_waiters > 0 {
        Condvar { counter: vstd::wrapping::u32_specs::wrapping_add(c.counter, 1), num_waiters: c.num_waiters }
    } else {
        c
    }
}

impl Condvar {
    /// No notifications yet, and nobody waiting.
    pub fn new() -> (c: Condvar)
        ensures
            c.counter == 0,
            c.num_waiters == 0,
    {
        Condvar { counter: 0, num_waiters: 0 }
    }

    /// The first half of `wait`: count this thread as a waiter and take the
    /// counter value that the futex wait compares against.
    pub fn wait(&mut self) -> (expected: u32)
        requires
            old(self).num_waiters < usize::MAX,
        ensures
            *final(self) == registered(*old(self)),
            expected == old(self).counter,
    {
        self.num_waiters = self.num_waiters + 1;
        self.counter
    }

    /// The second half of `wait`, once woken: one waiter fewer.
    pub fn woken(&mut self)
        requires
            old(self).num_waiters > 0,
        ensures
            final(self).counter == old(self).counter,
            final(self).num_waiters == old(self).num_waiters - 1,
    {
        self.num_waiters = self.num_waiters - 1;
    }

    /// `notify_one`: when someone waits, bump the counter and wake one thread;
    /// the result says whether to wake.
    pub fn notify_one(&mut self) -> (wake: bool)
        ensures
            wake == (old(self).num_waiters > 0),
            *final(self) == notified(*old(self)),
    {
        if self.num_waiters > 0 {
            self.counter = self.counter.wrapping_add(1);
            true
        } else {
            false
        }
    }

    /// `notify_all`: the same words as `notify_one`; the result says whether to wake every waiter.
    pub fn notify_all(&mut self) -> (wake: bool)
        ensures
            wake == (old(self).num_waiters > 0),
            *final(self) == notified(*old(self)),
    {
        if self.num_waiters > 0 {
            self.counter = self.counter.wrapping_add(1);
            true
        } else {
            false
        }
    }
}

/// The words after `n` threads register as waiters, one after another, with no
/// wake-up between them.
pub open spec fn after_waits(c: Condvar, n: nat) -> Condvar
    decreases n,
{
    if n == 0 {
        c
    } else {
        registered(after_waits(c, (n - 1) as nat))
    }
}

/// Every wait is counted: registering adds exactly one waiter and keeps the
/// counter, so `n` waits with no wake-up between them add `n` waiters, and while
/// any of them still waits a notification reports a waiter to wake.
pub proof fn lemma_waits_are_counted(c: Condvar, n: nat, woken: nat)
    requires
        c.num_waiters + n <= usize::MAX,
        woken < n,
    ensures
        c.num_waiters < usize::MAX ==> registered(c).num_waiters == c.num_waiters + 1
            && registered(c).counter == c.counter,
        after_waits(c, n).num_waiters == c.num_waiters + n,
        after_waits(c, n).counter == c.counter,
        after_waits(c, n).num_waiters - woken > 0,
{
    lemma_after_waits(c, n);
}

proof fn lemma_after_waits(c: Condvar, n: nat)
    requires
        c.num_waiters + n <= usize::MAX,
    ensures
        after_waits(c, n).num_waiters == c.num_waiters + n,
        after_waits(c, n).counter == c.counter,
    decreases n,
{
    if n > 0 {
        lemma_after_waits(c, (n - 1) as nat);
        assert(after_waits(c, n) == registered(after_waits(c, (n - 1) as nat)));
    }
}

/// No lost wake-up: once a thread has registered and read the counter, a
/// notification finds it waiting and moves the counter away from the value it
/// waits on, so its futex wait cannot sleep through the notification.
pub proof fn lemma_notify_reaches_waiter(c: Condvar)
    requires
        c.num_waiters < usize::MAX,
    ensures
        registered(c).num_waiters > 0,
        notified(registered(c)).counter != c.counter,
{
}

} // verus!
