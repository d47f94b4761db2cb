//! Events explored by the model checker.

use crate::mc_time::McTime;
use vstd::prelude::*;

verus! {

/// Identifier of a pending event, assigned at insertion.
pub type McEventId = usize;

/// An event that the model checker may deliver.
#[derive(Clone, Debug)]
pub enum McEvent {
    /// A message sent from `src` to `dest` is received.
    MessageReceived { msg: String, src: String, dest: String },
    /// A timer named `timer` set by process `proc` with delay `timer_delay` fires.
    TimerFired { proc: String, timer: String, timer_delay: McTime },
    /// A directive: the timer named `timer` of process `proc` is cancelled.
    TimerCancelled { proc: String, timer: String },
    /// A directive: a message from `src` to `dest` is dropped.
    MessageDropped { msg: String, src: String, dest: String },
}

impl McEvent {
    /// Directives preempt ordinary events from exploration.
    pub open spec fn is_directive(&self) -> bool {
        self is TimerCancelled || self is MessageDropped
    }
}

} // verus!
