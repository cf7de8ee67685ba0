# rust_lio

LiDAR-inertial odometry for the Livox Mid-360, with its data handling proved
correct in Verus.

- `src/` is the verified library:
  - `bytes`, `text`: little-endian words and NUL-padded text;
  - `livox`: Livox UDP packets (points and IMU samples);
  - `lvx2`: LVX2 recordings (headers, device table, frames, packages);
  - `ros`, `bag`: ROS1 `Imu` and `PointCloud2` messages and the selection of
    a bag's messages by topic;
  - `pcd`: binary PCD point files;
  - `ikd_node`, `kd_tree`: the ikd-tree of the point map, whose node counters
    and lazy deletion flags are kept consistent by every operation, and whose
    insertions, deletions, rebuilds and searches are stated over the points
    that are not deleted;
  - `heap`: the bounded max-heap of the nearest-neighbour search;
  - `init`: the start-up sequence of a sensor (time synchronisation test,
    IMU initialisation, initial map) as a step function;
  - `config`, `proto`: configuration and message types.
- `app/` is the program around it: sockets, files, the Kalman filter, the
  floating-point geometry of the tree and the mapping pipeline.
- `tests/` exercises the library on concrete inputs.
