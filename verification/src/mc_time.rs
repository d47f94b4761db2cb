//! Model-checking time values.
//!
//! Timer delays in the model checker are totally ordered durations. They are
//! kept as integer ticks so that ordering facts can be stated and proved
//! exactly.

use vstd::prelude::*;

verus! {

/// A duration measured in integer ticks, used for timer delays.
#[derive(Clone, Copy, Debug, PartialEq, Eq, Structural)]
pub struct McTime {
    /// Number of ticks.
    pub ticks: u64,
}

impl McTime {
    /// Duration of zero ticks.
    pub fn zero() -> (r: McTime)
        ensures
            r.ticks == 0,
    {
        McTime { ticks: 0 }
    }
}

impl From<u64> for McTime {
    /// Builds a duration of `ticks` ticks.
    fn from(ticks: u64) -> (r: McTime)
        ensures
            r.ticks == ticks,
    {
        McTime { ticks }
    }
}

impl vstd::std_specs::convert::FromSpecImpl<u64> for McTime {
    open spec fn obeys_from_spec() -> bool {
        true
    }

    open spec fn from_spec(ticks: u64) -> McTime {
        McTime { ticks }
    }
}

impl PartialOrd for McTime {
    fn partial_cmp(&self, other: &McTime) -> (r: Option<core::cmp::Ordering>) {
        if self.ticks < other.ticks {
            Some(core::cmp::Ordering::Less)
        } else if self.ticks == other.ticks {
            Some(core::cmp::Ordering::Equal)
        } else {
            Some(core::cmp::Ordering::Greater)
        }
    }
}

impl vstd::std_specs::cmp::PartialOrdSpecImpl for McTime {
    open spec fn obeys_partial_cmp_spec() -> bool {
        true
    }

    open spec fn partial_cmp_spec(&self, other: &McTime) -> Option<core::cmp::Ordering> {
        if self.ticks < other.ticks {
            Some(core::cmp::Ordering::Less)
        } else if self.ticks == other.ticks {
            Some(core::cmp::Ordering::Equal)
        } else {
            Some(core::cmp::Ordering::Greater)
        }
    }
}

} // verus!
