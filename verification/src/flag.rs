//! The activity flag: whether the capture loop works or rests.

use vstd::prelude::*;

verus! {

/// The state that a toggle leaves behind.
pub open spec fn toggled(state: bool) -> bool {
    !state
}

/// A boolean gate, off when made.
#[derive(Debug)]
pub struct ActiveFlag {
    active: bool,
}

impl View for ActiveFlag {
    type V = bool;

    closed spec fn view(&self) -> bool {
        self.active
    }
}

impl ActiveFlag {
    /// Makes the flag, switched off.
    pub fn new() -> (flag: ActiveFlag)
        ensures
            !flag@,
    {
        ActiveFlag { active: false }
    }

    /// Flips the flag and returns its new state.
    pub fn toggle(&mut self) -> (now: bool)
        ensures
            final(self)@ == toggled(old(self)@),
            now == final(self)@,
    {
        self.active = !self.active;
        self.active
    }

    /// The flag's state.
    pub fn read(&self) -> (now: bool)
        ensures
            now == self@,
    {
        self.active
    }
}

/// Toggling always changes the state, and toggling twice restores it: from
/// off, the first toggle gives on and the second gives off again.
pub proof fn lemma_toggle_twice_restores(state: bool)
    ensures
        toggled(state) != state,
        toggled(toggled(state)) == state,
        toggled(false) == true,
        toggled(toggled(false)) == false,
{
}

} // verus!
