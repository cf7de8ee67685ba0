//! Verified core of a LiDAR-inertial odometry pipeline for Livox Mid-360
//! sensors: decoding of the sensor and recording formats (Livox UDP packets,
//! LVX2 files, ROS bag messages, binary PCD files), the ikd-tree that holds
//! the point map, the bounded heap of its nearest-neighbour search, and the
//! start-up sequence of a sensor.
pub mod bytes;
pub mod text;
pub mod lvx2;
pub mod livox;
pub mod ros;
pub mod bag;
pub mod config;
pub mod proto;
pub mod ikd_node;
pub mod kd_tree;
pub mod heap;
pub mod swap;
pub mod pcd;
pub mod init;

use vstd::prelude::*;

verus! {

} // verus!
