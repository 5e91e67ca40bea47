//! A futex-based reader-writer lock that keeps writers from starving.
//!
//! The state word is `u32::MAX` while a writer holds the lock. Otherwise it is
//! twice the number of readers, plus one while a writer waits; readers only
//! enter while it is even.
use vstd::prelude::*;

verus! {

/// The words of a reader-writer lock.
pub struct RwLock {
    pub state: u32,
    pub writer_wake_counter: u32,
}

pub open spec fn write_locked(s: u32) -> bool {
    s == u32::MAX
}

pub open spec fn readers(s: u32) -> nat {
    (s / 2) as nat
}

pub open spec fn writer_waiting(s: u32) -> bool {
    s % 2 == 1 && !write_locked(s)
}

/// What a reader does with the state word it read.
#[derive(PartialEq, Eq, Structural, Clone, Copy, Debug)]
pub enum ReadStep {
    /// Compare-exchange the word it read for `new`; on success the read lock is
    /// held, on failure decide again on the word found.
    TryAcquire { new: u32 },
    /// Wait while the word stays as read, then read it again.
    Wait,
    /// Give up: the reader count would run into the write-locked value.
    TooManyReaders,
}

/// What a writer does with the state word it read.
#[derive(PartialEq, Eq, Structural, Clone, Copy, Debug)]
pub enum WriteStep {
    /// Compare-exchange the word it read for `u32::MAX`; on failure decide again.
    TryAcquire,
    /// Compare-exchange the word it read for `new`, the same with the waiting bit
    /// set; on success wait for the readers, on failure decide again.
    BlockReaders { new: u32 },
    /// Wait for the readers to leave.
    AwaitReaders,
}

pub open spec fn read_step(s: u32) -> ReadStep {
    if s % 2 == 0 {
        if s < u32::MAX - 2 {
            ReadStep::TryAcquire { new: (s + 2) as u32 }
        } else {
            ReadStep::TooManyReaders
        }
    } else {
        ReadStep::Wait
    }
}

pub open spec fn write_step(s: u32) -> WriteStep {
    if s <= 1 {
        WriteStep::TryAcquire
    } else if s % 2 == 0 {
        WriteStep::BlockReaders { new: (s + 1) as u32 }
    } else {
        WriteStep::AwaitReaders
    }
}

impl RwLock {
    /// Unlocked, with no wake-ups of writers yet.
    pub fn new() -> (l: RwLock)
        ensures
            l.state == 0,
            l.writer_wake_counter == 0,
    {
        RwLock { state: 0, writer_wake_counter: 0 }
    }

    /// A reader's decision on the state word `s`: enter (one more reader) when no
    /// writer holds or waits for the lock, else wait.
    pub fn read(s: u32) -> (step: ReadStep)
        ensures
            step == read_step(s),
    {
        if s % 2 == 0 {
            if s < u32::MAX - 2 {
                ReadStep::TryAcquire { new: s + 2 }
            } else {
                ReadStep::TooManyReaders
            }
        } else {
            ReadStep::Wait
        }
    }

    /// A writer's decision on the state word `s`: take the lock when no reader
    /// holds it, else mark that a writer waits, else wait for the readers.
    pub fn write(s: u32) -> (step: WriteStep)
        ensures
            step == write_step(s),
    {
        if s <= 1 {
            WriteStep::TryAcquire
        } else if s % 2 == 0 {
            WriteStep::BlockReaders { new: s + 1 }
        } else {
            WriteStep::AwaitReaders
        }
    }

    /// A waiting writer, having read the wake-up counter and then the state `s`,
    /// sleeps on the counter while readers still hold the lock.
    pub fn writer_sleeps(s: u32) -> (sleep: bool)
        ensures
            sleep == (s >= 2),
    {
        s >= 2
    }
}

/// Holding the lock for reading.
pub struct ReadGuard;

impl ReadGuard {
    /// Releasing subtracts 2 from the word; `previous` is what it held. The last
    /// reader leaving while a writer waits wakes that writer.
    pub fn release_wakes_writer(previous: u32) -> (wake: bool)
        ensures
            wake == (previous == 3),
            wake <==> (readers(previous) == 1 && writer_waiting(previous)),
    {
        previous == 3
    }
}

/// Holding the lock for writing.
pub struct WriteGuard;

/// A reader enters only while no writer holds or waits for the lock, and leaves
/// the word as one more reader with no writer waiting.
pub proof fn lemma_read_enters_open_lock(s: u32)
    ensures
        read_step(s) matches ReadStep::TryAcquire { new } ==> {
            &&& !write_locked(s) && !writer_waiting(s)
            &&& !write_locked(new) && !writer_waiting(new)
            &&& readers(new) == readers(s) + 1
        },
{
}

/// Readers share the lock: whenever no writer holds it or waits for it and the
/// word is below the reader limit, a reader enters, whatever number of readers
/// already hold it, and the word then counts exactly one reader more.
pub proof fn lemma_readers_share(s: u32)
    requires
        !write_locked(s),
        !writer_waiting(s),
        s < u32::MAX - 2,
    ensures
        read_step(s) == (ReadStep::TryAcquire { new: (s + 2) as u32 }),
        readers((s + 2) as u32) == readers(s) + 1,
        !write_locked((s + 2) as u32) && !writer_waiting((s + 2) as u32),
{
}

/// Writers make progress: a writer takes a lock that no reader and no writer
/// holds; facing readers with no writer waiting, it marks that a writer waits,
/// keeping the readers; it waits only while readers are still inside after it
/// marked itself, or while a writer holds the lock.
pub proof fn lemma_writer_progress(s: u32)
    ensures
        readers(s) == 0 && !write_locked(s) ==> write_step(s) == WriteStep::TryAcquire,
        readers(s) > 0 && !writer_waiting(s) && !write_locked(s) ==> write_step(s) == (WriteStep::BlockReaders {
            new: (s + 1) as u32,
        }),
        readers(s) > 0 && writer_waiting(s) ==> write_step(s) == WriteStep::AwaitReaders,
        write_locked(s) ==> write_step(s) == WriteStep::AwaitReaders,
{
}

/// A writer takes the lock only when no reader holds it, and blocking new readers
/// keeps the reader count (short of the largest reader count, where the blocked
/// word would read as write-locked).
pub proof fn lemma_write_enters_empty_lock(s: u32)
    requires
        s != u32::MAX - 1,
    ensures
        write_step(s) is TryAcquire ==> readers(s) == 0 && !write_locked(s),
        write_step(s) matches WriteStep::BlockReaders { new } ==> readers(new) == readers(s)
            && writer_waiting(new) && !writer_waiting(s) && readers(s) >= 1,
        write_step(s) is AwaitReaders ==> writer_waiting(s) || write_locked(s),
{
}

/// Readers and writers exclude each other: after a reader's acquisition no writer
/// decides to take the lock, and after a writer's no reader enters and no other
/// writer takes it.
pub proof fn lemma_acquisitions_exclude(s: u32)
    ensures
        read_step(s) matches ReadStep::TryAcquire { new } ==> !(write_step(new) is TryAcquire),
        read_step(u32::MAX) == ReadStep::Wait,
        !(write_step(u32::MAX) is TryAcquire),
{
}

/// One atomic step that a thread takes on the lock's word: a successful
/// compare-exchange of a reader or a writer from the word `seen` that it read, a
/// writer's compare-exchange that blocks new readers, or a release.
#[derive(PartialEq, Eq, Structural, Clone, Copy, Debug)]
pub enum LockStep {
    ReadAcquire { seen: u32 },
    WriteAcquire { seen: u32 },
    BlockReaders { seen: u32 },
    ReadRelease,
    WriteRelease,
}

/// The lock as the threads share it: the state word, how many read guards are
/// live, and whether a write guard is live.
pub struct LockState {
    pub state: u32,
    pub readers: nat,
    pub writer: bool,
}

/// What a step makes of the shared lock, or `None` when the step cannot happen
/// there: a compare-exchange succeeds only on the word it read and only when the
/// thread's decision (`RwLock::read`, `RwLock::write`) was to make it; only a
/// thread with a guard releases.
pub open spec fn lock_step(l: LockState, step: LockStep) -> Option<LockState> {
    match step {
        LockStep::ReadAcquire { seen } => match read_step(seen) {
            ReadStep::TryAcquire { new } => if l.state == seen {
                Some(LockState { state: new, readers: l.readers + 1, writer: l.writer })
            } else {
                None
            },
            _ => None,
        },
        LockStep::WriteAcquire { seen } => if write_step(seen) is TryAcquire && l.state == seen {
            Some(LockState { state: u32::MAX, readers: l.readers, writer: true })
        } else {
            None
        },
        LockStep::BlockReaders { seen } => match write_step(seen) {
            WriteStep::BlockReaders { new } => if l.state == seen {
                Some(LockState { state: new, readers: l.readers, writer: l.writer })
            } else {
                None
            },
            _ => None,
        },
        LockStep::ReadRelease => if l.readers > 0 {
            Some(LockState { state: (l.state - 2) as u32, readers: (l.readers - 1) as nat, writer: l.writer })
        } else {
            None
        },
        LockStep::WriteRelease => if l.writer {
            Some(LockState { state: 0, readers: l.readers, writer: false })
        } else {
            None
        },
    }
}

/// The word says who holds the lock: `u32::MAX` exactly while the one writer holds
/// it with no reader; otherwise twice the number of readers, plus one while a
/// writer waits.
pub open spec fn lock_inv(l: LockState) -> bool {
    &&& l.writer ==> l.state == u32::MAX && l.readers == 0
    &&& !l.writer ==> l.state != u32::MAX && l.readers == readers(l.state)
}

/// The lock starts free.
pub proof fn lemma_lock_starts_free()
    ensures
        lock_inv(LockState { state: 0, readers: 0, writer: false }),
{
}

/// Mutual exclusion: every step that can happen keeps the word telling who holds
/// the lock, so at most one write guard is live, never beside a read guard. The one
/// exception is a writer blocking readers on the word `u32::MAX - 1`
/// (2^31 - 1 readers), which makes the word read as write-locked.
pub proof fn lemma_steps_keep_exclusion(l: LockState, step: LockStep)
    requires
        lock_inv(l),
        !(step matches LockStep::BlockReaders { seen } && seen == u32::MAX - 1),
    ensures
        lock_step(l, step) matches Some(l2) ==> lock_inv(l2),
        l.writer ==> !(step is ReadAcquire && lock_step(l, step) is Some) && !(step is WriteAcquire && lock_step(
            l,
            step,
        ) is Some),
        l.readers > 0 ==> !(step is WriteAcquire && lock_step(l, step) is Some),
{
}

/// No writer starvation: while a writer waits (the word is odd and not
/// write-locked), no reader gets in, and every step leaves the word odd until a
/// writer takes the lock.
pub proof fn lemma_waiting_writer_keeps_readers_out(l: LockState, step: LockStep)
    requires
        lock_inv(l),
        writer_waiting(l.state),
    ensures
        !(step is ReadAcquire && lock_step(l, step) is Some),
        lock_step(l, step) matches Some(l2) ==> l2.writer || writer_waiting(l2.state),
{
}

} // verus!
