//! One user request to run a function.

use vstd::prelude::*;

verus! {

/// One invocation of a function: created by the workload generator when it
/// arrives and accounted for when it finishes.
#[derive(Clone, Copy, Debug)]
pub struct Invocation {
    /// Stable numeric id.
    pub id: usize,
    /// The invoked function.
    pub func_id: usize,
    /// The function's application.
    pub app_id: usize,
    /// Arrival time in ticks.
    pub arrival_time: u64,
}

} // verus!
