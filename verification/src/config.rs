//! Configuration surface consumed by the simulation core.

use vstd::prelude::*;
use crate::world::{Position, Orientation};

verus! {

/// Options recognized by the core. All times are in milliseconds of
/// simulation time.
#[derive(PartialEq, Eq, Structural, Clone, Copy, Debug)]
pub struct Config {
    /// Simulation step length.
    pub tick_interval_ms: u64,
    /// Fixed delay before an ephemeral mutation reverts.
    pub mutation_ttl_ms: u64,
    /// Minimum height an entity may fall to before the fail-safe teleport.
    pub fall_threshold_y: i32,
    /// Where initial placement and fall recovery put an entity.
    pub spawn_point: Position,
    /// Facing direction given with the spawn point.
    pub spawn_orientation: Orientation,
}

impl Config {
    /// A usable configuration: strictly positive periods (so a freshly
    /// recorded deadline is strictly in the future), and heights that leave
    /// room for the cell directly beneath an entity's feet.
    pub open spec fn wf(self) -> bool {
        &&& self.tick_interval_ms >= 1
        &&& self.mutation_ttl_ms >= 1
        &&& self.fall_threshold_y > i32::MIN
        &&& self.spawn_point.y > i32::MIN
    }

    /// Checks `wf` at run time, for callers that read options from outside.
    pub fn is_usable(&self) -> (r: bool)
        ensures
            r == self.wf(),
    {
        self.tick_interval_ms >= 1 && self.mutation_ttl_ms >= 1
            && self.fall_threshold_y > i32::MIN && self.spawn_point.y > i32::MIN
    }
}

} // verus!
