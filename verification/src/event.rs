//! Payloads of the host simulation events.

use vstd::prelude::*;

verus! {

/// A container finished its work and may become idle or terminate.
#[derive(Clone, Copy, Debug)]
pub struct ContainerEndEvent {
    /// Container id.
    pub id: usize,
    /// The number of started invocations the container is expected to have.
    pub expected_count: usize,
}

/// A container finished deploying.
#[derive(Clone, Copy, Debug)]
pub struct ContainerStartEvent {
    /// Container id.
    pub id: usize,
}

/// A container was deployed idle, ahead of demand.
#[derive(Clone, Copy, Debug)]
pub struct IdleDeployEvent {
    /// Container id.
    pub id: usize,
}

/// An invocation finished executing.
#[derive(Clone, Copy, Debug)]
pub struct InvocationEndEvent {
    /// Invocation id.
    pub id: usize,
}

/// An invocation begins executing.
#[derive(Clone, Copy, Debug)]
pub struct InvocationStartEvent {
    /// Invocation id.
    pub id: usize,
    /// The invoked function.
    pub func_id: usize,
}

/// The simulation is over.
#[derive(Clone, Copy, Debug)]
pub struct SimulationEndEvent {}

} // verus!
