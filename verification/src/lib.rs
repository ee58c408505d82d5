//! Thread scheduling and synchronization core of a small single-processor kernel.
//!
//! All kernel state lives in one [`thread::Manager`] that is handed to every
//! entry point. Threads are records in an arena and are named by their index;
//! ready queues, wait lists and donation records hold those indices.
//!
//! Nothing here suspends a caller. An operation that would block marks the
//! calling thread, picks the next thread to run and returns; the surrounding
//! kernel performs the context switch and calls the operation again once the
//! thread is running again.

pub mod sleepq;
pub mod sync;
pub mod thread;
pub mod userproc;
