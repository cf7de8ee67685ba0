//! Message types exchanged with other processes.
use vstd::prelude::*;

verus! {

/// IMU message of the sensor protocol. It carries no field yet.
#[derive(Debug, Clone, Copy, PartialEq, Eq, Structural, Default)]
pub struct ImuDataProto {}

} // verus!
