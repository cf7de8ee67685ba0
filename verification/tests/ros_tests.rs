use rust_lio::ros::{
    parse_imu_message, parse_point_fields, parse_pointcloud2_message, parse_ros_string,
    RosIntensity, RosParseError,
};

fn ros_string(s: &[u8]) -> Vec<u8> {
    let mut v = (s.len() as u32).to_le_bytes().to_vec();
    v.extend_from_slice(s);
    v
}

fn header(sec: u32, nsec: u32, frame: &[u8]) -> Vec<u8> {
    let mut v = 17u32.to_le_bytes().to_vec();
    v.extend_from_slice(&sec.to_le_bytes());
    v.extend_from_slice(&nsec.to_le_bytes());
    v.extend_from_slice(&ros_string(frame));
    v
}

fn doubles(v: &mut Vec<u8>, xs: &[f64]) {
    for x in xs {
        v.extend_from_slice(&x.to_bits().to_le_bytes());
    }
}

fn imu_message() -> Vec<u8> {
    let mut v = header(100, 500_000_000, b"livox_frame");
    doubles(&mut v, &[0.0, 0.0, 0.0, 1.0]);
    doubles(&mut v, &[0.0; 9]);
    doubles(&mut v, &[0.1, -0.2, 0.3]);
    doubles(&mut v, &[0.0; 9]);
    doubles(&mut v, &[9.7, 0.05, -0.01]);
    doubles(&mut v, &[0.0; 9]);
    v
}

#[test]
fn ros_string_strips_trailing_nul() {
    let mut v = vec![0xFFu8];
    v.extend_from_slice(&ros_string(b"base\0\0"));
    let (s, next) = parse_ros_string(&v, 1).unwrap();
    assert_eq!(s, "base");
    assert_eq!(next, v.len());
    assert_eq!(parse_ros_string(&v, v.len()).err(), Some(RosParseError::UnexpectedEof));
    let cut = &v[..v.len() - 1];
    assert_eq!(parse_ros_string(cut, 1).err(), Some(RosParseError::UnexpectedEof));
}

#[test]
fn ros_string_replaces_invalid_utf8() {
    let v = ros_string(&[b'a', 0xFF, b'b', 0]);
    let (s, _) = parse_ros_string(&v, 0).unwrap();
    assert_eq!(s, "a\u{FFFD}b");
}

#[test]
fn imu_message_decodes() {
    let imu = parse_imu_message(&imu_message()).unwrap();
    assert_eq!(imu.stamp_sec, 100);
    assert_eq!(imu.stamp_nsec, 500_000_000);
    assert_eq!(f64::from_bits(imu.gyr_x), 0.1);
    assert_eq!(f64::from_bits(imu.gyr_y), -0.2);
    assert_eq!(f64::from_bits(imu.gyr_z), 0.3);
    assert_eq!(f64::from_bits(imu.acc_x), 9.7);
    assert_eq!(f64::from_bits(imu.acc_y), 0.05);
    assert_eq!(f64::from_bits(imu.acc_z), -0.01);
}

#[test]
fn imu_message_needs_the_acceleration() {
    let m = imu_message();
    // The trailing covariance is not read; the acceleration is.
    let without_cov = &m[..m.len() - 72];
    assert!(parse_imu_message(without_cov).is_ok());
    let cut = &m[..m.len() - 73];
    assert_eq!(parse_imu_message(cut).err(), Some(RosParseError::UnexpectedEof));
    assert_eq!(parse_imu_message(&m[..11]).err(), Some(RosParseError::UnexpectedEof));
}

fn field(name: &[u8], offset: u32, datatype: u8) -> Vec<u8> {
    let mut v = ros_string(name);
    v.extend_from_slice(&offset.to_le_bytes());
    v.push(datatype);
    v.extend_from_slice(&1u32.to_le_bytes());
    v
}

fn cloud(fields: &[Vec<u8>], point_step: u32, data: &[u8]) -> Vec<u8> {
    let mut v = header(7, 250, b"lidar");
    v.extend_from_slice(&1u32.to_le_bytes()); // height
    v.extend_from_slice(&2u32.to_le_bytes()); // width
    v.extend_from_slice(&(fields.len() as u32).to_le_bytes());
    for f in fields {
        v.extend_from_slice(f);
    }
    v.push(0); // is_bigendian
    v.extend_from_slice(&point_step.to_le_bytes());
    v.extend_from_slice(&(point_step * 2).to_le_bytes()); // row_step
    v.extend_from_slice(&(data.len() as u32).to_le_bytes());
    v.extend_from_slice(data);
    v.push(1); // is_dense
    v
}

fn floats(v: &mut Vec<u8>, xs: &[f32]) {
    for x in xs {
        v.extend_from_slice(&x.to_bits().to_le_bytes());
    }
}

#[test]
fn pointcloud2_with_float_intensity() {
    let fields = vec![
        field(b"x", 0, 7),
        field(b"y", 4, 7),
        field(b"z", 8, 7),
        field(b"intensity", 12, 7),
    ];
    let mut data = Vec::new();
    floats(&mut data, &[1.0, 2.0, 3.0, 40.0, -1.0, -2.0, -3.0, 5.5]);
    let c = parse_pointcloud2_message(&cloud(&fields, 16, &data)).unwrap();
    assert_eq!(c.stamp_sec, 7);
    assert_eq!(c.stamp_nsec, 250);
    assert_eq!(c.height, 1);
    assert_eq!(c.width, 2);
    assert_eq!(c.fields.len(), 4);
    assert_eq!(c.fields[3].name, "intensity");
    assert_eq!(c.points.len(), 2);
    assert_eq!(f32::from_bits(c.points[0].x), 1.0);
    assert_eq!(f32::from_bits(c.points[0].z), 3.0);
    assert_eq!(c.points[0].intensity, RosIntensity::Float32(40.0f32.to_bits()));
    assert_eq!(f32::from_bits(c.points[1].y), -2.0);
    assert_eq!(c.points[1].intensity, RosIntensity::Float32(5.5f32.to_bits()));
}

#[test]
fn pointcloud2_with_byte_intensity_and_reordered_fields() {
    let fields = vec![
        field(b"i", 0, 2),
        field(b"z", 1, 7),
        field(b"x", 5, 7),
        field(b"y", 9, 7),
    ];
    let mut data = vec![200u8];
    floats(&mut data, &[3.0, 1.0, 2.0]);
    let c = parse_pointcloud2_message(&cloud(&fields, 13, &data)).unwrap();
    assert_eq!(c.points.len(), 1);
    assert_eq!(f32::from_bits(c.points[0].x), 1.0);
    assert_eq!(f32::from_bits(c.points[0].y), 2.0);
    assert_eq!(f32::from_bits(c.points[0].z), 3.0);
    assert_eq!(c.points[0].intensity, RosIntensity::Uint8(200));
}

#[test]
fn pointcloud2_defaults_without_fields() {
    let mut data = Vec::new();
    floats(&mut data, &[1.0, 2.0, 3.0, 4.0]);
    let c = parse_pointcloud2_message(&cloud(&[], 16, &data)).unwrap();
    assert_eq!(c.points.len(), 1);
    assert_eq!(f32::from_bits(c.points[0].x), 1.0);
    assert_eq!(f32::from_bits(c.points[0].z), 3.0);
    assert_eq!(c.points[0].intensity, RosIntensity::Zero);
}

#[test]
fn pointcloud2_other_intensity_type_reads_zero() {
    let fields = vec![field(b"intensity", 12, 4)];
    let mut data = Vec::new();
    floats(&mut data, &[1.0, 2.0, 3.0, 4.0]);
    let c = parse_pointcloud2_message(&cloud(&fields, 16, &data)).unwrap();
    assert_eq!(c.points[0].intensity, RosIntensity::Zero);
}

#[test]
fn pointcloud2_zero_step_has_no_points() {
    let c = parse_pointcloud2_message(&cloud(&[], 0, &[1, 2, 3])).unwrap();
    assert!(c.points.is_empty());
}

#[test]
fn pointcloud2_partial_point_is_not_counted() {
    let mut data = Vec::new();
    floats(&mut data, &[1.0, 2.0, 3.0, 4.0, 5.0]);
    let c = parse_pointcloud2_message(&cloud(&[], 16, &data)).unwrap();
    assert_eq!(c.points.len(), 1);
}

#[test]
fn pointcloud2_value_outside_data_is_an_error() {
    // x is declared at offset 14 of a 16-byte point: its 4 bytes leave the data.
    let fields = vec![field(b"x", 14, 7)];
    let data = vec![0u8; 16];
    assert_eq!(
        parse_pointcloud2_message(&cloud(&fields, 16, &data)).err(),
        Some(RosParseError::UnexpectedEof)
    );
    // The same offset is fine when a later point provides the bytes.
    let data2 = vec![0u8; 34];
    let c = parse_pointcloud2_message(&cloud(&fields, 16, &data2)).unwrap();
    assert_eq!(c.points.len(), 2);
}

#[test]
fn pointcloud2_truncated_is_an_error() {
    let mut data = Vec::new();
    floats(&mut data, &[1.0, 2.0, 3.0, 4.0]);
    let m = cloud(&[field(b"x", 0, 7)], 16, &data);
    // Without the final is_dense byte the message is incomplete.
    assert_eq!(
        parse_pointcloud2_message(&m[..m.len() - 1]).err(),
        Some(RosParseError::UnexpectedEof)
    );
    assert!(parse_pointcloud2_message(&m).is_ok());
}

#[test]
fn point_fields_decode() {
    let mut v = field(b"x", 0, 7);
    v.extend_from_slice(&field(b"rgb", 16, 6));
    let (fields, next) = parse_point_fields(&v, 0, 2).unwrap();
    assert_eq!(next, v.len());
    assert_eq!(fields[1].name, "rgb");
    assert_eq!(fields[1].offset, 16);
    assert_eq!(fields[1].datatype, 6);
    assert_eq!(fields[1].count, 1);
    assert_eq!(parse_point_fields(&v, 0, 3).err(), Some(RosParseError::UnexpectedEof));
}
