use rust_lio::bag::{RosbagMessage, RosbagReader};

fn ros_string(s: &[u8]) -> Vec<u8> {
    let mut v = (s.len() as u32).to_le_bytes().to_vec();
    v.extend_from_slice(s);
    v
}

fn header(sec: u32, nsec: u32) -> Vec<u8> {
    let mut v = 3u32.to_le_bytes().to_vec();
    v.extend_from_slice(&sec.to_le_bytes());
    v.extend_from_slice(&nsec.to_le_bytes());
    v.extend_from_slice(&ros_string(b"frame"));
    v
}

fn imu_bytes(sec: u32) -> Vec<u8> {
    let mut v = header(sec, 0);
    for k in 0..28u64 {
        v.extend_from_slice(&(k as f64).to_bits().to_le_bytes());
    }
    v
}

fn cloud_bytes(sec: u32) -> Vec<u8> {
    let mut v = header(sec, 9);
    v.extend_from_slice(&1u32.to_le_bytes()); // height
    v.extend_from_slice(&1u32.to_le_bytes()); // width
    v.extend_from_slice(&0u32.to_le_bytes()); // no fields
    v.push(0);
    v.extend_from_slice(&12u32.to_le_bytes()); // point step
    v.extend_from_slice(&12u32.to_le_bytes()); // row step
    v.extend_from_slice(&12u32.to_le_bytes()); // data length
    for x in [1.0f32, 2.0, 3.0] {
        v.extend_from_slice(&x.to_bits().to_le_bytes());
    }
    v.push(1);
    v
}

fn topic(t: &str) -> String {
    t.to_string()
}

#[test]
fn default_topics_and_setters() {
    let mut r = RosbagReader::new();
    assert_eq!(r.imu_topic, "/eve/livox/imu");
    assert_eq!(r.lidar_topic, "/eve/lidar3d");
    r.set_imu_topic("/imu").set_lidar_topic("/points");
    assert_eq!(r.imu_topic, "/imu");
    assert_eq!(r.lidar_topic, "/points");
}

#[test]
fn scan_keeps_messages_of_matching_topics() {
    let r = RosbagReader::new();
    let mut scan = r.start_scan(None);
    // Each record is decoded as the kind of its own topic.
    assert!(!scan.accept(&topic("/eve/livox/imu"), Some(&imu_bytes(5))));
    assert_eq!(scan.imu_count, 1);
    assert_eq!(scan.pc_count, 0);
    assert_eq!(scan.messages.len(), 1);
    match &scan.messages[0] {
        RosbagMessage::Imu(m) => {
            assert_eq!(m.stamp_sec, 5);
            assert_eq!(f64::from_bits(m.gyr_x), 13.0);
            assert_eq!(f64::from_bits(m.acc_z), 27.0);
        },
        _ => panic!("expected an IMU message"),
    }
    assert!(!scan.accept(&topic("/eve/lidar3d"), Some(&cloud_bytes(6))));
    assert_eq!(scan.pc_count, 1);
    assert_eq!(scan.messages.len(), 2);
    match &scan.messages[1] {
        RosbagMessage::PointCloud(c) => {
            assert_eq!(c.stamp_sec, 6);
            assert_eq!(c.stamp_nsec, 9);
            assert_eq!(c.points.len(), 1);
            assert_eq!(f32::from_bits(c.points[0].y), 2.0);
        },
        _ => panic!("expected a cloud"),
    }
    // A record on another topic yields nothing.
    assert!(!scan.accept(&topic("/other"), Some(&imu_bytes(7))));
    assert_eq!(scan.messages.len(), 2);
    // A record without message bytes still counts.
    assert!(!scan.accept(&topic("/eve/livox/imu"), None));
    assert_eq!(scan.total_processed, 4);
    assert_eq!(scan.messages.len(), 2);
}

#[test]
fn scan_yields_one_message_per_record_and_skips_garbage() {
    let r = RosbagReader::new();
    let mut scan = r.start_scan(Some(10));
    scan.accept(&topic("/eve/livox/imu"), Some(&imu_bytes(1)));
    assert_eq!(scan.imu_count, 1);
    assert_eq!(scan.messages.len(), 1);
    // IMU bytes on the LiDAR topic are decoded as a cloud, and fail.
    scan.accept(&topic("/eve/lidar3d"), Some(&imu_bytes(2)));
    assert_eq!(scan.messages.len(), 1);
    scan.accept(&topic("/eve/livox/imu"), Some(&[1, 2, 3]));
    assert_eq!(scan.imu_count, 1);
    assert_eq!(scan.total_processed, 3);
}

#[test]
fn scan_prefers_the_imu_topic() {
    let mut r = RosbagReader::new();
    r.set_lidar_topic("/eve/livox/imu");
    let mut scan = r.start_scan(None);
    scan.accept(&topic("/eve/livox/imu"), Some(&cloud_bytes(2)));
    // Decoded as an IMU message, which the cloud bytes are too short for.
    assert_eq!(scan.messages.len(), 0);
    assert_eq!(scan.pc_count, 0);
}

#[test]
fn scan_stops_at_the_limit() {
    let r = RosbagReader::new();
    let mut scan = r.start_scan(Some(2));
    let t = topic("/eve/livox/imu");
    assert!(!scan.accept(&t, None));
    assert!(scan.accept(&t, None));
    let mut zero = r.start_scan(Some(0));
    assert!(zero.accept(&t, None));
}
