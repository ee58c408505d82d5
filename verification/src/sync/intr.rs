//! Lock that works by turning the timer interrupt off.

use vstd::prelude::*;

verus! {

/// A lock based on disabling the timer interrupt.
///
/// Acquiring records whether the interrupt was enabled before it was turned
/// off; releasing hands that state back so that it can be restored. Turning
/// the interrupt off and on is the caller's part.
#[derive(Debug)]
pub struct Intr {
    saved: Option<bool>,
}

impl View for Intr {
    type V = Option<bool>;

    closed spec fn view(&self) -> Option<bool> {
        self.saved
    }
}

impl Intr {
    /// A lock that is not held.
    pub fn new() -> (lock: Self)
        ensures
            lock@ is None,
    {
        Intr { saved: None }
    }

    /// Whether the lock is held.
    pub fn is_held(&self) -> (held: bool)
        ensures
            held == (self@ is Some),
    {
        self.saved.is_some()
    }

    /// Takes the lock, which must be free, and records `previous`, the
    /// interrupt state found when the interrupt was turned off.
    pub fn acquire(&mut self, previous: bool)
        requires
            old(self)@ is None,
        ensures
            final(self)@ == Some(previous),
    {
        self.saved = Some(previous);
    }

    /// Releases the lock, which must be held, and returns the interrupt state to restore.
    pub fn release(&mut self) -> (previous: bool)
        requires
            old(self)@ is Some,
        ensures
            old(self)@ == Some(previous),
            final(self)@ is None,
    {
        let previous = self.saved.unwrap();
        self.saved = None;
        previous
    }
}

impl Default for Intr {
    fn default() -> (lock: Self)
        ensures
            lock@ is None,
    {
        Intr::new()
    }
}

} // verus!
