use rust_lio::lvx2::{
    Lvx2Error, Lvx2Package, Lvx2PackageHeader, Lvx2Reader,
    PointType1,
};

const SIGNATURE: &[u8; 16] = b"livox_tech\0\0\0\0\0\0";

fn public_header(ver_a: u8, magic: u32) -> Vec<u8> {
    let mut v = SIGNATURE.to_vec();
    v.extend_from_slice(&[ver_a, 0, 0, 1]);
    v.extend_from_slice(&magic.to_le_bytes());
    v
}

fn device_record(sn: &str, id: u32) -> Vec<u8> {
    let mut v = vec![0u8; 63];
    v[..sn.len()].copy_from_slice(sn.as_bytes());
    v[16..21].copy_from_slice(b"HUB01");
    v[32..36].copy_from_slice(&id.to_le_bytes());
    v[36] = 247;
    v[37] = 9;
    v[38] = 1;
    v[39..43].copy_from_slice(&1.5f32.to_bits().to_le_bytes());
    v[59..63].copy_from_slice(&(-2.0f32).to_bits().to_le_bytes());
    v
}

fn package(data_type: u8, timestamp: u64, data: &[u8]) -> Vec<u8> {
    let mut v = vec![5u8];
    v.extend_from_slice(&7u32.to_le_bytes());
    v.push(8);
    v.push(1);
    v.extend_from_slice(&timestamp.to_le_bytes());
    v.extend_from_slice(&3u16.to_le_bytes());
    v.push(data_type);
    v.extend_from_slice(&(data.len() as u32).to_le_bytes());
    v.push(4);
    v.extend_from_slice(&[0, 0, 0, 0]);
    v.extend_from_slice(data);
    v
}

fn frame_header(current: u64, next: u64, index: u64) -> Vec<u8> {
    let mut v = current.to_le_bytes().to_vec();
    v.extend_from_slice(&next.to_le_bytes());
    v.extend_from_slice(&index.to_le_bytes());
    v
}

fn point_bytes(x: i32, y: i32, z: i32, r: u8, t: u8) -> Vec<u8> {
    let mut v = x.to_le_bytes().to_vec();
    v.extend_from_slice(&y.to_le_bytes());
    v.extend_from_slice(&z.to_le_bytes());
    v.push(r);
    v.push(t);
    v
}

fn imu_bytes() -> Vec<u8> {
    let mut v = Vec::new();
    for f in [0.1f32, 0.2, 0.3, 0.0, 0.0, 1.0] {
        v.extend_from_slice(&f.to_bits().to_le_bytes());
    }
    v
}

/// A file with one device, one frame holding an IMU package and a point
/// package, and a closing frame header.
fn sample_file() -> Vec<u8> {
    let mut f = public_header(2, 0xAC0EA767);
    f.extend_from_slice(&5u32.to_le_bytes());
    f.push(1);
    f.extend_from_slice(&device_record("SN123", 0x0A0B0C0D));
    let first = f.len() as u64;
    let mut body = package(0, 1_000, &imu_bytes());
    let mut pts = point_bytes(1000, -2000, 300, 10, 0);
    pts.extend_from_slice(&point_bytes(-1, 0, 1, 255, 3));
    body.extend_from_slice(&package(1, 2_000, &pts));
    let next = first + 24 + body.len() as u64;
    f.extend_from_slice(&frame_header(first, next, 0));
    f.extend_from_slice(&body);
    f.extend_from_slice(&frame_header(next, next, 1));
    f
}

#[test]
fn test_open_lvx2_file() {
    // The recording is built in memory: tests do not read files.
    let data = sample_file();
    match Lvx2Reader::from_bytes(data) {
        Ok(reader) => {
            println!("\n=== LVX2 File Successfully Opened ===");
            println!("Public Header:");
            println!(
                "  Version: {}.{}.{}.{}",
                reader.public_header.ver_a,
                reader.public_header.ver_b,
                reader.public_header.ver_c,
                reader.public_header.ver_d
            );
            println!("  Magic Code: 0x{:X}", reader.public_header.magic_code);
            println!("\nPrivate Header:");
            println!("  Duration: {}ms", reader.private_header.duration);
            println!("  Device Count: {}", reader.private_header.device_count);
            println!("\nDevices:");
            for (i, device) in reader.devices.iter().enumerate() {
                println!("  Device {}:", i);
                println!("    LiDAR SN: {}", device.lidar_sn);
                println!("    LiDAR Type: {}", device.lidar_type);
                println!("    Device Type: {}", device.device_type);
            }
            println!("\nFirst frame offset: 0x{:X}", reader.current_frame_offset);
            println!(
                "Expected: 0x{:X} (24+5+63*{})",
                24 + 5 + 63 * reader.private_header.device_count as usize,
                reader.private_header.device_count
            );
            assert_eq!(
                reader.current_frame_offset as usize,
                24 + 5 + 63 * reader.private_header.device_count as usize
            );
        }
        Err(e) => {
            println!("Failed to open LVX2: {:?}", e);
            panic!("Test failed");
        }
    }
}

#[test]
fn test_read_frames() {
    let data = sample_file();
    let mut reader = Lvx2Reader::from_bytes(data).expect("Failed to open file");
    println!("\n=== Reading Frames ===");
    let mut frame_count = 0;
    let mut imu_count = 0;
    let mut point_count = 0;
    while !reader.next_frame_is_malformed() {
        let packages = match reader.read_next_frame() {
            Ok(Some(p)) => p,
            _ => break,
        };
        frame_count += 1;
        for package in &packages {
            if package.header.data_type == 0 {
                imu_count += 1;
                if imu_count <= 3 {
                    if let Ok(imu) = Lvx2Reader::parse_imu_data(package) {
                        println!(
                            "Frame {}, IMU: gyro=({:.3}, {:.3}, {:.3}), acc=({:.3}, {:.3}, {:.3}), ts={}ns",
                            frame_count,
                            f32::from_bits(imu.gyro_x),
                            f32::from_bits(imu.gyro_y),
                            f32::from_bits(imu.gyro_z),
                            f32::from_bits(imu.acc_x),
                            f32::from_bits(imu.acc_y),
                            f32::from_bits(imu.acc_z),
                            package.header.timestamp
                        );
                    }
                }
            } else if package.header.data_type == 1 {
                point_count += 1;
                if point_count <= 3 {
                    if let Ok(points) = Lvx2Reader::parse_point_cloud_type1(package) {
                        println!(
                            "Frame {}, PointCloud: {} points, first point=({}, {}, {}), ts={}ns",
                            frame_count,
                            points.len(),
                            points[0].x,
                            points[0].y,
                            points[0].z,
                            package.header.timestamp
                        );
                    }
                }
            }
        }
    }
    println!("\n=== Summary ===");
    println!("Processed {} frames", frame_count);
    println!("Found {} IMU packages", imu_count);
    println!("Found {} point cloud packages", point_count);
    assert_eq!((frame_count, imu_count, point_count), (1, 1, 1));
}

#[test]
fn header_size_is_public_plus_private() {
    assert_eq!(Lvx2Reader::get_header_size(), 29);
}

#[test]
fn public_header_accepted() {
    let h = Lvx2Reader::read_public_header(&public_header(2, 0xAC0EA767)).unwrap();
    assert_eq!(&h.signature, SIGNATURE);
    assert_eq!((h.ver_a, h.ver_b, h.ver_c, h.ver_d), (2, 0, 0, 1));
    assert_eq!(h.magic_code, 0xAC0EA767);
}

#[test]
fn public_header_errors() {
    assert_eq!(Lvx2Reader::read_public_header(&SIGNATURE[..10]), Err(Lvx2Error::UnexpectedEof));
    let mut bad_sig = public_header(2, 0xAC0EA767);
    bad_sig[3] = b'X';
    assert_eq!(Lvx2Reader::read_public_header(&bad_sig), Err(Lvx2Error::InvalidSignature));
    assert_eq!(Lvx2Reader::read_public_header(&bad_sig[..16]), Err(Lvx2Error::InvalidSignature));
    assert_eq!(Lvx2Reader::read_public_header(&public_header(2, 0xAC0EA767)[..18]), Err(Lvx2Error::UnexpectedEof));
    assert_eq!(
        Lvx2Reader::read_public_header(&public_header(1, 0xAC0EA767)),
        Err(Lvx2Error::UnsupportedVersion(1, 0, 0, 1))
    );
    assert_eq!(
        Lvx2Reader::read_public_header(&public_header(2, 0xAC0EA767)[..22]),
        Err(Lvx2Error::UnexpectedEof)
    );
    assert_eq!(
        Lvx2Reader::read_public_header(&public_header(2, 0x12345678)),
        Err(Lvx2Error::InvalidMagicCode(0x12345678))
    );
}

#[test]
fn open_reads_headers_and_devices() {
    let reader = Lvx2Reader::from_bytes(sample_file()).unwrap();
    assert_eq!(reader.private_header.duration, 5);
    assert_eq!(reader.private_header.device_count, 1);
    assert_eq!(reader.devices.len(), 1);
    let d = &reader.devices[0];
    assert_eq!(d.lidar_sn, "SN123");
    assert_eq!(d.hub_sn, "HUB01");
    assert_eq!(d.lidar_id, 0x0A0B0C0D);
    assert_eq!(d.lidar_type, 247);
    assert_eq!(d.device_type, 9);
    assert!(d.enable_extrinsic);
    assert_eq!(f32::from_bits(d.offset_roll_bits), 1.5);
    assert_eq!(f32::from_bits(d.offset_pitch_bits), 0.0);
    assert_eq!(f32::from_bits(d.offset_z_bits), -2.0);
    // 24 + 5 + 63 * device_count
    assert_eq!(reader.current_frame_offset, 24 + 5 + 63);
    assert_eq!(reader.file_size, sample_file().len() as u64);
}

#[test]
fn open_fails_on_missing_device_record() {
    let f = sample_file();
    assert_eq!(Lvx2Reader::from_bytes(f[..29 + 62].to_vec()).err(), Some(Lvx2Error::UnexpectedEof));
    assert_eq!(Lvx2Reader::from_bytes(f[..27].to_vec()).err(), Some(Lvx2Error::UnexpectedEof));
    let mut bad = f.clone();
    bad[16] = 3;
    assert_eq!(
        Lvx2Reader::from_bytes(bad).err(),
        Some(Lvx2Error::UnsupportedVersion(3, 0, 0, 1))
    );
}

#[test]
fn device_count_zero_puts_first_frame_after_private_header() {
    let mut f = public_header(2, 0xAC0EA767);
    f.extend_from_slice(&50u32.to_le_bytes());
    f.push(0);
    let reader = Lvx2Reader::from_bytes(f).unwrap();
    assert!(reader.devices.is_empty());
    assert_eq!(reader.current_frame_offset, 29);
}

#[test]
fn frames_are_read_in_order_then_end() {
    let f = sample_file();
    let mut reader = Lvx2Reader::from_bytes(f.clone()).unwrap();
    assert!(!reader.next_frame_is_malformed());
    let packages = reader.read_next_frame().unwrap().unwrap();
    assert_eq!(packages.len(), 2);
    assert_eq!(packages[0].header.data_type, 0);
    assert_eq!(packages[0].header.timestamp, 1_000);
    assert_eq!(packages[0].header.version, 5);
    assert_eq!(packages[0].header.lidar_id, 7);
    assert_eq!(packages[0].header.udp_count, 3);
    assert_eq!(packages[0].header.frame_count, 4);
    assert_eq!(packages[0].header.length, 24);
    assert_eq!(packages[0].data, imu_bytes());
    assert_eq!(packages[1].header.data_type, 1);
    assert_eq!(packages[1].data.len(), 28);
    let last = (f.len() - 24) as u64;
    assert_eq!(reader.current_frame_offset, last);
    // The closing frame header (next == current) ends the recording, for good.
    assert!(reader.read_next_frame().unwrap().is_none());
    assert_eq!(reader.current_frame_offset, last);
    assert!(reader.read_next_frame().unwrap().is_none());
}

#[test]
fn truncated_frame_header_is_an_error() {
    let mut f = sample_file();
    f.truncate(f.len() - 10);
    let mut reader = Lvx2Reader::from_bytes(f).unwrap();
    assert!(reader.read_next_frame().unwrap().is_some());
    assert_eq!(reader.read_next_frame().err(), Some(Lvx2Error::UnexpectedEof));
    assert_eq!(reader.read_next_frame().err(), Some(Lvx2Error::UnexpectedEof));
}

#[test]
fn reading_past_the_end_returns_none() {
    let mut f = public_header(2, 0xAC0EA767);
    f.extend_from_slice(&50u32.to_le_bytes());
    f.push(0);
    let mut reader = Lvx2Reader::from_bytes(f).unwrap();
    assert!(reader.read_next_frame().unwrap().is_none());
    assert_eq!(reader.current_frame_offset, 29);
}

#[test]
fn package_cut_off_by_end_of_file_ends_the_frame() {
    let mut f = public_header(2, 0xAC0EA767);
    f.extend_from_slice(&50u32.to_le_bytes());
    f.push(0);
    let first = f.len() as u64;
    let p1 = package(1, 9, &point_bytes(1, 2, 3, 4, 5));
    let p2 = package(1, 10, &point_bytes(6, 7, 8, 9, 10));
    // The frame announces both packages, but the file stops inside the second.
    let next = first + 24 + (p1.len() + p2.len()) as u64;
    f.extend_from_slice(&frame_header(first, next, 0));
    f.extend_from_slice(&p1);
    f.extend_from_slice(&p2[..30]);
    let mut reader = Lvx2Reader::from_bytes(f).unwrap();
    let packages = reader.read_next_frame().unwrap().unwrap();
    assert_eq!(packages.len(), 1);
    assert_eq!(packages[0].header.timestamp, 9);
    assert_eq!(reader.current_frame_offset, next);
    // The next offset lies past the end: the recording is over.
    assert!(reader.read_next_frame().unwrap().is_none());
}

#[test]
fn frame_size_limits_the_packages_read() {
    let mut f = public_header(2, 0xAC0EA767);
    f.extend_from_slice(&50u32.to_le_bytes());
    f.push(0);
    let first = f.len() as u64;
    let p1 = package(1, 9, &point_bytes(1, 2, 3, 4, 5));
    let p2 = package(1, 10, &point_bytes(6, 7, 8, 9, 10));
    // The frame header claims room for the first package only.
    let next = first + 24 + p1.len() as u64;
    f.extend_from_slice(&frame_header(first, next, 0));
    f.extend_from_slice(&p1);
    f.extend_from_slice(&p2);
    let mut reader = Lvx2Reader::from_bytes(f).unwrap();
    let packages = reader.read_next_frame().unwrap().unwrap();
    assert_eq!(packages.len(), 1);
    assert_eq!(reader.current_frame_offset, next);
}

#[test]
fn malformed_frame_header_is_detected() {
    let mut f = public_header(2, 0xAC0EA767);
    f.extend_from_slice(&50u32.to_le_bytes());
    f.push(0);
    f.extend_from_slice(&frame_header(100, 110, 0));
    let reader = Lvx2Reader::from_bytes(f).unwrap();
    assert!(reader.next_frame_is_malformed());
}

fn package_of(data_type: u8, data: Vec<u8>) -> Lvx2Package {
    Lvx2Package {
        header: Lvx2PackageHeader {
            version: 0,
            lidar_id: 0,
            lidar_type: 8,
            timestamp_type: 0,
            timestamp: 0,
            udp_count: 0,
            data_type,
            length: data.len() as u32,
            frame_count: 0,
            reserved: [0; 4],
        },
        data,
    }
}

#[test]
fn imu_package_decodes() {
    let imu = Lvx2Reader::parse_imu_data(&package_of(0, imu_bytes())).unwrap();
    assert_eq!(f32::from_bits(imu.gyro_x), 0.1);
    assert_eq!(f32::from_bits(imu.gyro_y), 0.2);
    assert_eq!(f32::from_bits(imu.gyro_z), 0.3);
    assert_eq!(f32::from_bits(imu.acc_z), 1.0);
}

#[test]
fn imu_package_errors() {
    assert_eq!(
        Lvx2Reader::parse_imu_data(&package_of(1, imu_bytes())),
        Err(Lvx2Error::NotImuData)
    );
    assert_eq!(
        Lvx2Reader::parse_imu_data(&package_of(0, vec![0; 23])),
        Err(Lvx2Error::InvalidImuLength(23))
    );
}

#[test]
fn point_cloud_type1_decodes() {
    let mut data = point_bytes(1000, -2000, 300, 10, 0);
    data.extend_from_slice(&point_bytes(i32::MIN, i32::MAX, -1, 255, 3));
    let points = Lvx2Reader::parse_point_cloud_type1(&package_of(1, data)).unwrap();
    assert_eq!(
        points,
        vec![
            PointType1 { x: 1000, y: -2000, z: 300, reflectivity: 10, tag: 0 },
            PointType1 { x: i32::MIN, y: i32::MAX, z: -1, reflectivity: 255, tag: 3 },
        ]
    );
    let empty = Lvx2Reader::parse_point_cloud_type1(&package_of(1, vec![])).unwrap();
    assert!(empty.is_empty());
}

#[test]
fn point_cloud_type1_errors() {
    assert_eq!(
        Lvx2Reader::parse_point_cloud_type1(&package_of(0, vec![0; 14])),
        Err(Lvx2Error::NotPointCloudType1)
    );
    assert_eq!(
        Lvx2Reader::parse_point_cloud_type1(&package_of(1, vec![0; 15])),
        Err(Lvx2Error::InvalidPointCloudLength(15))
    );
}
