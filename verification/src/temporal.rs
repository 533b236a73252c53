//! The fixed-step calendar and the run horizon.

use vstd::prelude::*;

verus! {

/// A calendar with a fixed origin instant and timestep.
#[derive(Clone, Copy, Debug, PartialEq, Eq, Structural)]
pub struct FixedStepCalendar {
    pub origin_unix_seconds: i64,
    pub timestep_seconds: u64,
}

/// The first and last timestep of a run.
#[derive(Clone, Copy, Debug, PartialEq, Eq, Structural)]
pub struct RunHorizon {
    pub first: u64,
    pub last: u64,
}

} // verus!
