//! Configuration values used by the decoding logic.
use vstd::prelude::*;

verus! {

/// Where the sensor data comes from.
#[derive(Debug, Clone, Copy, PartialEq, Eq, Structural)]
pub enum DataSource {
    /// Live UDP stream of a Livox Mid-360.
    Udp,
    /// Recorded ROS bag.
    Ros,
}

} // verus!
