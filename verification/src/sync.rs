//! Synchronization primitives built on the thread manager.

pub mod condvar;
pub mod intr;
pub mod sema;
pub mod sleep;
