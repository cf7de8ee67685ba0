use rust_lio::livox::{rawdata_decoder, rawdata_range_reversed, RawDecodeError, RawPacket};
use rust_lio::lvx2::{Lvx2Package, Lvx2PackageHeader, Lvx2Reader, PointType1};

fn header(length: u16, dot_num: u16, data_type: u8, timestamp: u64) -> Vec<u8> {
    let mut v = vec![0u8; 36];
    v[0] = 1;
    v[1..3].copy_from_slice(&length.to_le_bytes());
    v[3..5].copy_from_slice(&10u16.to_le_bytes());
    v[5..7].copy_from_slice(&dot_num.to_le_bytes());
    v[7..9].copy_from_slice(&77u16.to_le_bytes());
    v[9] = 3;
    v[10] = data_type;
    v[11] = 0;
    v[24..28].copy_from_slice(&0xDEADBEEFu32.to_le_bytes());
    v[28..36].copy_from_slice(&timestamp.to_le_bytes());
    v
}

fn point_bytes(x: i32, y: i32, z: i32, r: u8, t: u8) -> Vec<u8> {
    let mut v = x.to_le_bytes().to_vec();
    v.extend_from_slice(&y.to_le_bytes());
    v.extend_from_slice(&z.to_le_bytes());
    v.push(r);
    v.push(t);
    v
}

fn lidar_packet() -> Vec<u8> {
    let mut payload = point_bytes(1500, -20, 99, 40, 1);
    payload.extend_from_slice(&point_bytes(0, 0, 0, 0, 0));
    let mut v = header(36 + payload.len() as u16, 2, 1, 1_700_000_000_123_456_789);
    v.extend_from_slice(&payload);
    v
}

#[test]
fn lidar_packet_yields_every_point() {
    match rawdata_decoder(&lidar_packet()).unwrap() {
        RawPacket::Lidar { timestamp, points } => {
            assert_eq!(timestamp, 1_700_000_000_123_456_789);
            assert_eq!(
                points,
                vec![
                    PointType1 { x: 1500, y: -20, z: 99, reflectivity: 40, tag: 1 },
                    PointType1 { x: 0, y: 0, z: 0, reflectivity: 0, tag: 0 },
                ]
            );
        }
        other => panic!("unexpected {:?}", other),
    }
}

#[test]
fn trailing_bytes_after_length_are_ignored() {
    let mut p = lidar_packet();
    p.extend_from_slice(&[1, 2, 3]);
    match rawdata_decoder(&p).unwrap() {
        RawPacket::Lidar { points, .. } => assert_eq!(points.len(), 2),
        other => panic!("unexpected {:?}", other),
    }
}

#[test]
fn imu_packet_yields_six_words() {
    let mut v = header(36 + 24, 1, 0, 42);
    for f in [0.5f32, -0.25, 0.0, 0.01, 0.02, 0.98] {
        v.extend_from_slice(&f.to_bits().to_le_bytes());
    }
    match rawdata_decoder(&v).unwrap() {
        RawPacket::Imu { timestamp, imu } => {
            assert_eq!(timestamp, 42);
            assert_eq!(f32::from_bits(imu.gyro_x), 0.5);
            assert_eq!(f32::from_bits(imu.gyro_y), -0.25);
            assert_eq!(f32::from_bits(imu.acc_x), 0.01);
            assert_eq!(f32::from_bits(imu.acc_z), 0.98);
        }
        other => panic!("unexpected {:?}", other),
    }
}

#[test]
fn decoder_errors() {
    assert_eq!(rawdata_decoder(&[0u8; 35]).err(), Some(RawDecodeError::TooShortForHeader));
    let short = header(100, 0, 1, 0);
    assert_eq!(rawdata_decoder(&short).err(), Some(RawDecodeError::TooShortForPayload));
    let mut mismatch = header(36 + 14, 2, 1, 0);
    mismatch.extend_from_slice(&point_bytes(1, 2, 3, 4, 5));
    assert_eq!(rawdata_decoder(&mismatch).err(), Some(RawDecodeError::PayloadSizeMismatch));
    let mut imu_short = header(36 + 20, 0, 0, 0);
    imu_short.extend_from_slice(&[0u8; 20]);
    assert_eq!(rawdata_decoder(&imu_short).err(), Some(RawDecodeError::ImuPayloadTooShort));
    let unknown = header(36, 0, 2, 0);
    assert_eq!(rawdata_decoder(&unknown).err(), Some(RawDecodeError::UnknownDataType(2)));
}

#[test]
fn reversed_payload_range_is_detected() {
    assert!(rawdata_range_reversed(&header(20, 0, 1, 0)));
    assert!(!rawdata_range_reversed(&header(36, 0, 1, 0)));
    assert!(!rawdata_range_reversed(&[0u8; 10]));
    assert!(!rawdata_range_reversed(&header(200, 0, 1, 0)));
}

#[test]
fn udp_points_match_lvx2_package_with_same_payload() {
    let packet = lidar_packet();
    let payload = packet[36..].to_vec();
    let package = Lvx2Package {
        header: Lvx2PackageHeader {
            version: 0,
            lidar_id: 0,
            lidar_type: 8,
            timestamp_type: 0,
            timestamp: 0,
            udp_count: 0,
            data_type: 1,
            length: payload.len() as u32,
            frame_count: 0,
            reserved: [0; 4],
        },
        data: payload,
    };
    let from_lvx2 = Lvx2Reader::parse_point_cloud_type1(&package).unwrap();
    match rawdata_decoder(&packet).unwrap() {
        RawPacket::Lidar { points, .. } => assert_eq!(points, from_lvx2),
        other => panic!("unexpected {:?}", other),
    }
}
