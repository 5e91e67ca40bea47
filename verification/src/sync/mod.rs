//! The decisions of a few hand-written synchronisation primitives. Each
//! primitive keeps its state in atomic words that other threads change; the
//! functions here decide, from the values that the atomic operations returned,
//! what to do next. The atomic operations and the futex calls are the caller's.
pub mod spinlock;
pub mod mutex;
pub mod rwlock;
pub mod channel;
