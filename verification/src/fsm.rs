//! Generic finite state machine
//!
//! A minimal state machine that tracks the current state and supports transitions.
//! Game-specific state logic (enter/exit callbacks, transition conditions) is left
//! to the consumer -- this just provides clean state tracking.

use vstd::prelude::*;
use vstd::std_specs::cmp::PartialEqSpec;

verus! {

/// A generic finite state machine
///
/// Tracks the current state and the state before the last transition.
/// Whether two states are "the same" is decided by the state type's own
/// equality; where that equality is the structural one (`obeys_eq_spec`),
/// the contracts below state the outcome exactly.
pub struct StateMachine<S: Eq + Clone + std::fmt::Debug> {
    current: S,
    previous: Option<S>,
}

impl<S: Eq + Clone + std::fmt::Debug> StateMachine<S> {
    /// The current state.
    pub closed spec fn spec_current(&self) -> S {
        self.current
    }

    /// The state before the last transition, if any transition happened.
    pub closed spec fn spec_previous(&self) -> Option<S> {
        self.previous
    }

    /// Create a new state machine with the given initial state
    pub fn new(initial: S) -> (r: Self)
        ensures
            r.spec_current() == initial,
            r.spec_previous() is None,
    {
        StateMachine { current: initial, previous: None }
    }

    /// Get a reference to the current state
    pub fn current(&self) -> (r: &S)
        ensures
            *r == self.spec_current(),
    {
        &self.current
    }

    /// Get a reference to the previous state (before the last transition)
    ///
    /// Returns `None` if no transition has occurred yet.
    pub fn previous(&self) -> (r: Option<&S>)
        ensures
            r is None <==> self.spec_previous() is None,
            r is Some ==> *r->0 == self.spec_previous()->0,
    {
        self.previous.as_ref()
    }

    /// Transition to a new state
    ///
    /// Returns `true` if the state changed, `false` if already in that state.
    /// When the state changes, the old state is saved as `previous`.
    pub fn transition(&mut self, new_state: S) -> (changed: bool)
        ensures
            changed ==> final(self).spec_current() == new_state
                && final(self).spec_previous() == Some(old(self).spec_current()),
            !changed ==> final(self).spec_current() == old(self).spec_current()
                && final(self).spec_previous() == old(self).spec_previous(),
            S::obeys_eq_spec() ==> (changed <==> !old(self).spec_current().eq_spec(&new_state)),
    {
        if self.current != new_state {
            let mut old_state = new_state;
            std::mem::swap(&mut self.current, &mut old_state);
            self.previous = Some(old_state);
            true
        } else {
            false
        }
    }

    /// Check if the state machine is in the given state
    pub fn is_in(&self, state: &S) -> (r: bool)
        ensures
            S::obeys_eq_spec() ==> (r <==> self.spec_current().eq_spec(state)),
    {
        &self.current == state
    }
}

} // verus!
