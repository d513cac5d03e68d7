//! Orders the commands of one webview against the release of its old page: a page
//! load raises a cleanup at once; commands that arrive during a cleanup wait for it,
//! and the cleanup waits for the commands that already run.

use vstd::prelude::*;

verus! {

/// The commands admitted and still running, and the cleanups pending.
#[derive(Clone, Copy, Debug, PartialEq, Eq, Structural)]
pub struct GateState {
    pub running: usize,
    pub cleanups: usize,
}

impl Default for GateState {
    fn default() -> (state: Self)
        ensures
            state == (GateState { running: 0, cleanups: 0 }),
    {
        GateState { running: 0, cleanups: 0 }
    }
}

/// The counters after a command asks to enter, and whether it was admitted.
pub open spec fn entered(s: GateState) -> (GateState, bool) {
    if s.cleanups == 0 {
        (GateState { running: (s.running + 1) as usize, ..s }, true)
    } else {
        (s, false)
    }
}

/// The counters after a cleanup begins.
pub open spec fn begun(s: GateState) -> GateState {
    GateState { cleanups: (s.cleanups + 1) as usize, ..s }
}

/// The counters after a cleanup ends.
pub open spec fn ended(s: GateState) -> GateState {
    GateState {
        cleanups: if s.cleanups > 0 {
            (s.cleanups - 1) as usize
        } else {
            0
        },
        ..s
    }
}

impl GateState {
    /// Admits one command when no cleanup is pending.
    pub fn try_enter(&mut self) -> (admitted: bool)
        requires
            old(self).running < usize::MAX,
        ensures
            (*final(self), admitted) == entered(*old(self)),
    {
        if self.cleanups == 0 {
            self.running = self.running + 1;
            true
        } else {
            false
        }
    }

    /// A running command finished.
    pub fn leave(&mut self)
        requires
            old(self).running > 0,
        ensures
            *final(self) == (GateState { running: (old(self).running - 1) as usize, ..*old(self) }),
    {
        self.running = self.running - 1;
    }

    /// Holds back new commands until the matching [`GateState::end_cleanup`].
    pub fn begin_cleanup(&mut self)
        requires
            old(self).cleanups < usize::MAX,
        ensures
            *final(self) == begun(*old(self)),
    {
        self.cleanups = self.cleanups + 1;
    }

    /// Ends one cleanup; more ends than begins leave none pending.
    pub fn end_cleanup(&mut self)
        ensures
            *final(self) == ended(*old(self)),
    {
        self.cleanups = self.cleanups.saturating_sub(1);
    }

    /// Whether every admitted command has finished.
    pub fn is_idle(&self) -> (idle: bool)
        ensures
            idle == (self.running == 0),
    {
        self.running == 0
    }
}

/// A command that arrives during a cleanup waits: it is not admitted, and the
/// counters are unchanged.
pub proof fn law_a_new_command_waits_for_the_cleanup(state: GateState)
    requires
        state.cleanups < usize::MAX,
    ensures
        entered(begun(state)) == (begun(state), false),
{
}

/// A cleanup leaves the commands that already run running, so it is idle only once
/// they all left; its end restores the counters.
pub proof fn law_a_cleanup_waits_for_the_commands_that_already_run(state: GateState)
    requires
        state.cleanups < usize::MAX,
    ensures
        begun(state).running == state.running,
        ended(begun(state)) == state,
{
}

} // verus!
