//! LVX2 recording format of Livox LiDARs.
//!
//! Layout of a file, all integers little-endian:
//! - public header (24 bytes): signature `livox_tech` padded with NUL to 16
//!   bytes, four version bytes (major version 2), magic code `0xAC0EA767`;
//! - private header (5 bytes): frame duration (u32), device count (u8);
//! - one 63-byte record per device;
//! - frames: a 24-byte frame header (current offset, next offset, index),
//!   followed by packages, each a 27-byte header and `length` data bytes.
//!
//! The reader holds the whole file in memory and walks it frame by frame.
use crate::bytes::{le_i32, le_u16, le_u32, le_u64, read_i32_le, read_u16_le, read_u32_le, read_u64_le};
use crate::text::{decode_padded_text, padded_text};
use vstd::prelude::*;

verus! {

/// Size of the public header.
pub const PUBLIC_HEADER_SIZE: usize = 24;

/// Size of the private header.
pub const PRIVATE_HEADER_SIZE: usize = 5;

/// Size of one device record.
pub const DEVICE_INFO_SIZE: usize = 63;

/// Size of a frame header.
pub const FRAME_HEADER_SIZE: usize = 24;

/// Size of a package header.
pub const PACKAGE_HEADER_SIZE: usize = 27;

/// Size of one Cartesian 32-bit point (data type 1).
pub const POINT_TYPE1_SIZE: usize = 14;

/// Size of an IMU sample (six 32-bit floats).
pub const IMU_DATA_SIZE: usize = 24;

/// Magic code stored after the version bytes.
pub const LVX2_MAGIC_CODE: u32 = 0xAC0EA767;

/// The only supported major version.
pub const LVX2_VERSION_MAJOR: u8 = 2;

/// Why an LVX2 file or package could not be read.
#[derive(Debug, Clone, PartialEq, Eq, Structural)]
pub enum Lvx2Error {
    /// The data ended inside a field that had to be read.
    UnexpectedEof,
    /// The first 16 bytes are not the LVX2 signature.
    InvalidSignature,
    /// The major version is not 2 (all four version bytes are kept).
    UnsupportedVersion(u8, u8, u8, u8),
    /// The magic code is wrong (the code found is kept).
    InvalidMagicCode(u32),
    /// `parse_imu_data` was given a package whose data type is not 0.
    NotImuData,
    /// An IMU package whose data is not 24 bytes long (the length is kept).
    InvalidImuLength(usize),
    /// `parse_point_cloud_type1` was given a package whose data type is not 1.
    NotPointCloudType1,
    /// Point data whose length is not a multiple of 14 (the length is kept).
    InvalidPointCloudLength(usize),
}

/// LVX2 public header (24 bytes).
#[derive(Debug, Clone, PartialEq, Eq)]
pub struct Lvx2PublicHeader {
    pub signature: [u8; 16],
    pub ver_a: u8,
    pub ver_b: u8,
    pub ver_c: u8,
    pub ver_d: u8,
    pub magic_code: u32,
}

/// Mathematical content of a public header.
pub struct PublicHeaderView {
    pub signature: Seq<u8>,
    pub ver_a: u8,
    pub ver_b: u8,
    pub ver_c: u8,
    pub ver_d: u8,
    pub magic_code: u32,
}

impl View for Lvx2PublicHeader {
    type V = PublicHeaderView;

    open spec fn view(&self) -> PublicHeaderView {
        PublicHeaderView {
            signature: self.signature@,
            ver_a: self.ver_a,
            ver_b: self.ver_b,
            ver_c: self.ver_c,
            ver_d: self.ver_d,
            magic_code: self.magic_code,
        }
    }
}

/// LVX2 private header (5 bytes).
#[derive(Debug, Clone, Copy, PartialEq, Eq, Structural)]
pub struct Lvx2PrivateHeader {
    /// Frame duration in milliseconds.
    pub duration: u32,
    /// Number of device records that follow.
    pub device_count: u8,
}

/// One device record (63 bytes). The six extrinsic offsets are 32-bit IEEE
/// floats; they are kept here as their bit patterns.
#[derive(Debug, Clone)]
pub struct Lvx2DeviceInfo {
    pub lidar_sn: String,
    pub hub_sn: String,
    pub lidar_id: u32,
    pub lidar_type: u8,
    pub device_type: u8,
    pub enable_extrinsic: bool,
    pub offset_roll_bits: u32,
    pub offset_pitch_bits: u32,
    pub offset_yaw_bits: u32,
    pub offset_x_bits: u32,
    pub offset_y_bits: u32,
    pub offset_z_bits: u32,
}

/// Mathematical content of a device record.
pub struct DeviceInfoView {
    pub lidar_sn: Seq<char>,
    pub hub_sn: Seq<char>,
    pub lidar_id: u32,
    pub lidar_type: u8,
    pub device_type: u8,
    pub enable_extrinsic: bool,
    pub offset_roll_bits: u32,
    pub offset_pitch_bits: u32,
    pub offset_yaw_bits: u32,
    pub offset_x_bits: u32,
    pub offset_y_bits: u32,
    pub offset_z_bits: u32,
}

impl View for Lvx2DeviceInfo {
    type V = DeviceInfoView;

    open spec fn view(&self) -> DeviceInfoView {
        DeviceInfoView {
            lidar_sn: self.lidar_sn@,
            hub_sn: self.hub_sn@,
            lidar_id: self.lidar_id,
            lidar_type: self.lidar_type,
            device_type: self.device_type,
            enable_extrinsic: self.enable_extrinsic,
            offset_roll_bits: self.offset_roll_bits,
            offset_pitch_bits: self.offset_pitch_bits,
            offset_yaw_bits: self.offset_yaw_bits,
            offset_x_bits: self.offset_x_bits,
            offset_y_bits: self.offset_y_bits,
            offset_z_bits: self.offset_z_bits,
        }
    }
}

/// Frame header (24 bytes).
#[derive(Debug, Clone, Copy, PartialEq, Eq, Structural)]
pub struct Lvx2FrameHeader {
    /// File offset of this frame.
    pub current_offset: u64,
    /// File offset of the next frame; equal to `current_offset` for the last.
    pub next_offset: u64,
    pub frame_index: u64,
}

/// Package header (27 bytes).
#[derive(Debug, Clone, PartialEq, Eq)]
pub struct Lvx2PackageHeader {
    pub version: u8,
    pub lidar_id: u32,
    pub lidar_type: u8,
    /// 0 = no synchronisation, 1 = PTP, 2 = GPS.
    pub timestamp_type: u8,
    /// Nanoseconds.
    pub timestamp: u64,
    pub udp_count: u16,
    /// 0 = IMU, 1/2/3 = point cloud.
    pub data_type: u8,
    /// Number of data bytes after the header.
    pub length: u32,
    pub frame_count: u8,
    pub reserved: [u8; 4],
}

/// Mathematical content of a package header.
pub struct PackageHeaderView {
    pub version: u8,
    pub lidar_id: u32,
    pub lidar_type: u8,
    pub timestamp_type: u8,
    pub timestamp: u64,
    pub udp_count: u16,
    pub data_type: u8,
    pub length: u32,
    pub frame_count: u8,
    pub reserved: Seq<u8>,
}

impl View for Lvx2PackageHeader {
    type V = PackageHeaderView;

    open spec fn view(&self) -> PackageHeaderView {
        PackageHeaderView {
            version: self.version,
            lidar_id: self.lidar_id,
            lidar_type: self.lidar_type,
            timestamp_type: self.timestamp_type,
            timestamp: self.timestamp,
            udp_count: self.udp_count,
            data_type: self.data_type,
            length: self.length,
            frame_count: self.frame_count,
            reserved: self.reserved@,
        }
    }
}

/// A package: header and data bytes.
#[derive(Debug, Clone)]
pub struct Lvx2Package {
    pub header: Lvx2PackageHeader,
    pub data: Vec<u8>,
}

/// Mathematical content of a package.
pub struct PackageView {
    pub header: PackageHeaderView,
    pub data: Seq<u8>,
}

impl View for Lvx2Package {
    type V = PackageView;

    open spec fn view(&self) -> PackageView {
        PackageView { header: self.header@, data: self.data@ }
    }
}

/// IMU sample (data type 0): angular rates in rad/s and accelerations in g,
/// each a 32-bit IEEE float kept as its bit pattern.
#[derive(Debug, Clone, Copy, PartialEq, Eq, Structural)]
pub struct ImuDataBits {
    pub gyro_x: u32,
    pub gyro_y: u32,
    pub gyro_z: u32,
    pub acc_x: u32,
    pub acc_y: u32,
    pub acc_z: u32,
}

/// Cartesian point with 32-bit coordinates in millimetres (14 bytes).
#[derive(Debug, Clone, Copy, PartialEq, Eq, Structural)]
pub struct PointType1 {
    pub x: i32,
    pub y: i32,
    pub z: i32,
    pub reflectivity: u8,
    pub tag: u8,
}

// ---------------------------------------------------------------------------
// The format, stated over byte sequences
// ---------------------------------------------------------------------------

/// `livox_tech` followed by six NUL bytes.
pub open spec fn lvx2_signature() -> Seq<u8> {
    seq![0x6cu8, 0x69u8, 0x76u8, 0x6fu8, 0x78u8, 0x5fu8, 0x74u8, 0x65u8, 0x63u8, 0x68u8, 0u8, 0u8, 0u8, 0u8, 0u8, 0u8]
}

/// The public header stored at the start of `d`.
pub open spec fn public_header_at(d: Seq<u8>) -> PublicHeaderView {
    PublicHeaderView {
        signature: d.subrange(0, 16),
        ver_a: d[16],
        ver_b: d[17],
        ver_c: d[18],
        ver_d: d[19],
        magic_code: le_u32(d, 20) as u32,
    }
}

/// `d` starts with a complete public header that passes all checks.
pub open spec fn public_header_valid(d: Seq<u8>) -> bool {
    &&& d.len() >= 24
    &&& d.subrange(0, 16) == lvx2_signature()
    &&& d[16] == 2
    &&& le_u32(d, 20) == 0xAC0EA767
}

/// The error reported for a public header that is not valid; the checks run
/// in file order, each right after its field has been read.
pub open spec fn public_header_error(d: Seq<u8>) -> Lvx2Error {
    if d.len() < 16 {
        Lvx2Error::UnexpectedEof
    } else if d.subrange(0, 16) != lvx2_signature() {
        Lvx2Error::InvalidSignature
    } else if d.len() < 20 {
        Lvx2Error::UnexpectedEof
    } else if d[16] != 2 {
        Lvx2Error::UnsupportedVersion(d[16], d[17], d[18], d[19])
    } else if d.len() < 24 {
        Lvx2Error::UnexpectedEof
    } else {
        Lvx2Error::InvalidMagicCode(le_u32(d, 20) as u32)
    }
}

/// The private header stored right after the public header.
pub open spec fn private_header_at(d: Seq<u8>) -> Lvx2PrivateHeader {
    Lvx2PrivateHeader { duration: le_u32(d, 24) as u32, device_count: d[28] }
}

/// Offset of the first frame of a file with `count` devices.
pub open spec fn first_frame_offset(count: int) -> int {
    24 + 5 + 63 * count
}

/// The device record stored at `pos`.
pub open spec fn device_info_at(d: Seq<u8>, pos: int) -> DeviceInfoView {
    DeviceInfoView {
        lidar_sn: padded_text(d.subrange(pos, pos + 16)),
        hub_sn: padded_text(d.subrange(pos + 16, pos + 32)),
        lidar_id: le_u32(d, pos + 32) as u32,
        lidar_type: d[pos + 36],
        device_type: d[pos + 37],
        enable_extrinsic: d[pos + 38] != 0,
        offset_roll_bits: le_u32(d, pos + 39) as u32,
        offset_pitch_bits: le_u32(d, pos + 43) as u32,
        offset_yaw_bits: le_u32(d, pos + 47) as u32,
        offset_x_bits: le_u32(d, pos + 51) as u32,
        offset_y_bits: le_u32(d, pos + 55) as u32,
        offset_z_bits: le_u32(d, pos + 59) as u32,
    }
}

/// Layout of a device record: the LiDAR and hub serial numbers in bytes
/// 0..16 and 16..32, the LiDAR id word at 32, the LiDAR type, device type
/// and extrinsic flag bytes at 36, 37 and 38, then the six extrinsic words
/// roll, pitch, yaw, x, y, z at 39, 43, 47, 51, 55 and 59.
pub proof fn lemma_device_record_layout(d: Seq<u8>, pos: int)
    requires
        0 <= pos,
        pos + 63 <= d.len(),
    ensures
        device_info_at(d, pos).lidar_sn == padded_text(d.subrange(pos, pos + 16)),
        device_info_at(d, pos).hub_sn == padded_text(d.subrange(pos + 16, pos + 32)),
        device_info_at(d, pos).lidar_id == word_at(d, pos + 32),
        device_info_at(d, pos).lidar_type == d[pos + 36],
        device_info_at(d, pos).device_type == d[pos + 37],
        device_info_at(d, pos).enable_extrinsic == (d[pos + 38] != 0),
        device_info_at(d, pos).offset_roll_bits == word_at(d, pos + 39),
        device_info_at(d, pos).offset_pitch_bits == word_at(d, pos + 43),
        device_info_at(d, pos).offset_yaw_bits == word_at(d, pos + 47),
        device_info_at(d, pos).offset_x_bits == word_at(d, pos + 51),
        device_info_at(d, pos).offset_y_bits == word_at(d, pos + 55),
        device_info_at(d, pos).offset_z_bits == word_at(d, pos + 59),
{
}

/// The 64-bit word of the file whose eight bytes, least significant first,
/// start at `i`.
pub open spec fn dword_at(d: Seq<u8>, i: int) -> int {
    word_at(d, i) + 0x1_0000_0000 * word_at(d, i + 4)
}

/// Two's-complement value of the 32-bit word at `i`.
pub open spec fn signed_word_at(d: Seq<u8>, i: int) -> int {
    if word_at(d, i) < 0x8000_0000 {
        word_at(d, i)
    } else {
        word_at(d, i) - 0x1_0000_0000
    }
}

/// Layout of the file headers: the 16-byte signature, four version bytes at
/// 16..20 and the magic word at 20; then the duration word at 24 and the
/// device count byte at 28.
pub proof fn lemma_headers_layout(d: Seq<u8>)
    requires
        29 <= d.len(),
    ensures
        public_header_at(d).signature == d.subrange(0, 16),
        public_header_at(d).ver_a == d[16],
        public_header_at(d).ver_b == d[17],
        public_header_at(d).ver_c == d[18],
        public_header_at(d).ver_d == d[19],
        public_header_at(d).magic_code == word_at(d, 20),
        private_header_at(d).duration == word_at(d, 24),
        private_header_at(d).device_count == d[28],
{
}

/// Layout of a frame header: the current offset, next offset and frame
/// index, three 64-bit words at 0, 8 and 16.
pub proof fn lemma_frame_header_layout(d: Seq<u8>, pos: int)
    requires
        0 <= pos,
        pos + 24 <= d.len(),
    ensures
        frame_header_at(d, pos).current_offset == dword_at(d, pos),
        frame_header_at(d, pos).next_offset == dword_at(d, pos + 8),
        frame_header_at(d, pos).frame_index == dword_at(d, pos + 16),
{
}

/// Layout of a package header: version byte at 0, LiDAR id word at 1, LiDAR
/// type and timestamp type bytes at 5 and 6, timestamp at 7 (64 bits), UDP
/// count at 15 (16 bits), data type byte at 17, length word at 18, frame
/// count byte at 22 and four reserved bytes at 23.
pub proof fn lemma_package_header_layout(d: Seq<u8>, pos: int)
    requires
        0 <= pos,
        pos + 27 <= d.len(),
    ensures
        package_header_at(d, pos).version == d[pos],
        package_header_at(d, pos).lidar_id == word_at(d, pos + 1),
        package_header_at(d, pos).lidar_type == d[pos + 5],
        package_header_at(d, pos).timestamp_type == d[pos + 6],
        package_header_at(d, pos).timestamp == dword_at(d, pos + 7),
        package_header_at(d, pos).udp_count == d[pos + 15] as int + 0x100 * d[pos + 16] as int,
        package_header_at(d, pos).data_type == d[pos + 17],
        package_header_at(d, pos).length == word_at(d, pos + 18),
        package_header_at(d, pos).frame_count == d[pos + 22],
        package_header_at(d, pos).reserved == d.subrange(pos + 23, pos + 27),
{
}

/// Layout of a type-1 point: x, y, z as signed 32-bit words at 0, 4 and 8,
/// then the reflectivity and tag bytes at 12 and 13.
pub proof fn lemma_point_type1_layout(d: Seq<u8>, pos: int)
    requires
        0 <= pos,
        pos + 14 <= d.len(),
    ensures
        point_type1_at(d, pos).x == signed_word_at(d, pos),
        point_type1_at(d, pos).y == signed_word_at(d, pos + 4),
        point_type1_at(d, pos).z == signed_word_at(d, pos + 8),
        point_type1_at(d, pos).reflectivity == d[pos + 12],
        point_type1_at(d, pos).tag == d[pos + 13],
{
}

/// The device records of a file, in order.
pub open spec fn device_infos(d: Seq<u8>) -> Seq<DeviceInfoView> {
    Seq::new(d[28] as nat, |i: int| device_info_at(d, 29 + 63 * i))
}

/// A file can be opened: valid public header, and the private header and all
/// device records are present.
pub open spec fn opens(d: Seq<u8>) -> bool {
    public_header_valid(d) && d.len() >= 29 && d.len() >= first_frame_offset(d[28] as int)
}

/// The error reported when a file cannot be opened.
pub open spec fn open_error(d: Seq<u8>) -> Lvx2Error {
    if !public_header_valid(d) {
        public_header_error(d)
    } else {
        Lvx2Error::UnexpectedEof
    }
}

/// The frame header stored at `pos`.
pub open spec fn frame_header_at(d: Seq<u8>, pos: int) -> Lvx2FrameHeader {
    Lvx2FrameHeader {
        current_offset: le_u64(d, pos) as u64,
        next_offset: le_u64(d, pos + 8) as u64,
        frame_index: le_u64(d, pos + 16) as u64,
    }
}

/// The package header stored at `pos`.
pub open spec fn package_header_at(d: Seq<u8>, pos: int) -> PackageHeaderView {
    PackageHeaderView {
        version: d[pos],
        lidar_id: le_u32(d, pos + 1) as u32,
        lidar_type: d[pos + 5],
        timestamp_type: d[pos + 6],
        timestamp: le_u64(d, pos + 7) as u64,
        udp_count: le_u16(d, pos + 15) as u16,
        data_type: d[pos + 17],
        length: le_u32(d, pos + 18) as u32,
        frame_count: d[pos + 22],
        reserved: d.subrange(pos + 23, pos + 27),
    }
}

/// A complete package (header and all its data) is stored at `pos`.
pub open spec fn package_fits(d: Seq<u8>, pos: int) -> bool {
    0 <= pos && pos + 27 <= d.len() && pos + 27 + le_u32(d, pos + 18) <= d.len()
}

/// The package stored at `pos`.
pub open spec fn package_at(d: Seq<u8>, pos: int) -> PackageView {
    PackageView {
        header: package_header_at(d, pos),
        data: d.subrange(pos + 27, pos + 27 + le_u32(d, pos + 18)),
    }
}

/// Number of bytes the package at `pos` takes.
pub open spec fn package_span(d: Seq<u8>, pos: int) -> int {
    27 + le_u32(d, pos + 18)
}

/// The packages read from `pos` on, after `read` bytes of the frame have
/// been consumed out of `limit`: packages follow each other until `limit`
/// bytes have been consumed or the data ends inside a package.
pub open spec fn frame_packages(d: Seq<u8>, pos: int, limit: int, read: int) -> Seq<PackageView>
    decreases d.len() - pos,
{
    if read >= limit || !package_fits(d, pos) {
        seq![]
    } else {
        seq![package_at(d, pos)] + frame_packages(
            d,
            pos + package_span(d, pos),
            limit,
            read + package_span(d, pos),
        )
    }
}

/// Number of frame data bytes announced by a frame header, as the reader
/// computes it (`next - current - 24`, converted to `usize`).
pub open spec fn frame_data_size(h: Lvx2FrameHeader) -> usize {
    ((h.next_offset - h.current_offset - 24) as u64) as usize
}

/// The frame header at the reader's position announces a next offset that is
/// less than 24 bytes past its own current offset (and different from it),
/// so that the frame size cannot be computed.
pub open spec fn frame_size_underflows(d: Seq<u8>, off: int) -> bool {
    &&& off < d.len()
    &&& off + 24 <= d.len()
    &&& frame_header_at(d, off).next_offset != frame_header_at(d, off).current_offset
    &&& frame_header_at(d, off).next_offset < frame_header_at(d, off).current_offset + 24
}

/// The IMU sample stored in the 24 bytes at `pos`.
pub open spec fn imu_data_at(d: Seq<u8>, pos: int) -> ImuDataBits {
    ImuDataBits {
        gyro_x: le_u32(d, pos) as u32,
        gyro_y: le_u32(d, pos + 4) as u32,
        gyro_z: le_u32(d, pos + 8) as u32,
        acc_x: le_u32(d, pos + 12) as u32,
        acc_y: le_u32(d, pos + 16) as u32,
        acc_z: le_u32(d, pos + 20) as u32,
    }
}

/// The 32-bit word of the file whose four bytes, least significant first,
/// start at `i`.
pub open spec fn word_at(d: Seq<u8>, i: int) -> int {
    d[i] as int + 0x100 * d[i + 1] as int + 0x1_0000 * d[i + 2] as int + 0x100_0000 * d[i + 3] as int
}

/// Layout of an IMU sample: six consecutive 32-bit words, gyro x, y, z then
/// acc x, y, z, at byte offsets 0, 4, 8, 12, 16 and 20 of the sample.
pub proof fn lemma_imu_sample_layout(d: Seq<u8>, pos: int)
    requires
        0 <= pos,
        pos + 24 <= d.len(),
    ensures
        imu_data_at(d, pos).gyro_x == word_at(d, pos),
        imu_data_at(d, pos).gyro_y == word_at(d, pos + 4),
        imu_data_at(d, pos).gyro_z == word_at(d, pos + 8),
        imu_data_at(d, pos).acc_x == word_at(d, pos + 12),
        imu_data_at(d, pos).acc_y == word_at(d, pos + 16),
        imu_data_at(d, pos).acc_z == word_at(d, pos + 20),
{
}

/// An IMU sample depends on its own 24 bytes only, and each field on its own
/// four bytes: samples read at two places that agree on a field's four bytes
/// agree on that field.
pub proof fn lemma_imu_fields_local(d: Seq<u8>, pos: int, e: Seq<u8>, qos: int, k: int)
    requires
        0 <= pos,
        pos + 24 <= d.len(),
        0 <= qos,
        qos + 24 <= e.len(),
        0 <= k < 6,
        d.subrange(pos + 4 * k, pos + 4 * k + 4) == e.subrange(qos + 4 * k, qos + 4 * k + 4),
    ensures
        k == 0 ==> imu_data_at(d, pos).gyro_x == imu_data_at(e, qos).gyro_x,
        k == 1 ==> imu_data_at(d, pos).gyro_y == imu_data_at(e, qos).gyro_y,
        k == 2 ==> imu_data_at(d, pos).gyro_z == imu_data_at(e, qos).gyro_z,
        k == 3 ==> imu_data_at(d, pos).acc_x == imu_data_at(e, qos).acc_x,
        k == 4 ==> imu_data_at(d, pos).acc_y == imu_data_at(e, qos).acc_y,
        k == 5 ==> imu_data_at(d, pos).acc_z == imu_data_at(e, qos).acc_z,
{
    let a = d.subrange(pos + 4 * k, pos + 4 * k + 4);
    let b = e.subrange(qos + 4 * k, qos + 4 * k + 4);
    assert(a[0] == b[0] && a[1] == b[1] && a[2] == b[2] && a[3] == b[3]);
    assert(d[pos + 4 * k] == e[qos + 4 * k]);
    assert(d[pos + 4 * k + 1] == e[qos + 4 * k + 1]);
    assert(d[pos + 4 * k + 2] == e[qos + 4 * k + 2]);
    assert(d[pos + 4 * k + 3] == e[qos + 4 * k + 3]);
}

/// Reads the IMU sample stored in the 24 bytes at `pos`.
pub fn read_imu_data(data: &[u8], pos: usize) -> (r: ImuDataBits)
    requires
        pos + 24 <= data.len(),
    ensures
        r == imu_data_at(data@, pos as int),
{
    ImuDataBits {
        gyro_x: read_u32_le(data, pos),
        gyro_y: read_u32_le(data, pos + 4),
        gyro_z: read_u32_le(data, pos + 8),
        acc_x: read_u32_le(data, pos + 12),
        acc_y: read_u32_le(data, pos + 16),
        acc_z: read_u32_le(data, pos + 20),
    }
}

/// The point stored at `pos`.
pub open spec fn point_type1_at(d: Seq<u8>, pos: int) -> PointType1 {
    PointType1 {
        x: le_i32(d, pos) as i32,
        y: le_i32(d, pos + 4) as i32,
        z: le_i32(d, pos + 8) as i32,
        reflectivity: d[pos + 12],
        tag: d[pos + 13],
    }
}

/// The `count` points stored one after the other from `start`.
pub open spec fn points_type1(d: Seq<u8>, start: int, count: nat) -> Seq<PointType1> {
    Seq::new(count, |i: int| point_type1_at(d, start + 14 * i))
}

// ---------------------------------------------------------------------------
// Decoding
// ---------------------------------------------------------------------------

/// Reads `count` consecutive 14-byte points starting at `start`.
pub fn decode_points_type1(data: &[u8], start: usize, count: usize) -> (r: Vec<PointType1>)
    requires
        start + 14 * count <= data.len(),
    ensures
        r@ == points_type1(data@, start as int, count as nat),
{
    let mut points: Vec<PointType1> = Vec::new();
    let mut pos = start;
    let mut i: usize = 0;
    while i < count
        invariant
            start + 14 * count <= data.len(),
            i <= count,
            pos == start + 14 * i,
            points@ == points_type1(data@, start as int, i as nat),
        decreases count - i,
    {
        let p = PointType1 {
            x: read_i32_le(data, pos),
            y: read_i32_le(data, pos + 4),
            z: read_i32_le(data, pos + 8),
            reflectivity: data[pos + 12],
            tag: data[pos + 13],
        };
        points.push(p);
        proof {
            assert(points@ =~= points_type1(data@, start as int, (i + 1) as nat));
        }
        pos = pos + 14;
        i = i + 1;
    }
    points
}

/// Checks that the first 16 bytes are the LVX2 signature.
fn has_signature(data: &[u8]) -> (b: bool)
    requires
        data@.len() >= 16,
    ensures
        b == (data@.subrange(0, 16) == lvx2_signature()),
{
    let expected: Vec<u8> = vec![0x6cu8, 0x69u8, 0x76u8, 0x6fu8, 0x78u8, 0x5fu8, 0x74u8, 0x65u8, 0x63u8, 0x68u8, 0u8, 0u8, 0u8, 0u8, 0u8, 0u8];
    assert(expected@ =~= lvx2_signature());
    let mut i: usize = 0;
    while i < 16
        invariant
            data@.len() >= 16,
            expected@ == lvx2_signature(),
            i <= 16,
            forall|j: int| 0 <= j < i ==> data@[j] == expected@[j],
        decreases 16 - i,
    {
        if data[i] != expected[i] {
            assert(data@.subrange(0, 16)[i as int] != lvx2_signature()[i as int]);
            return false;
        }
        i = i + 1;
    }
    assert(data@.subrange(0, 16) =~= lvx2_signature());
    true
}








// ---------------------------------------------------------------------------
// Reader
// ---------------------------------------------------------------------------

/// An LVX2 file held in memory, read frame by frame.
pub struct Lvx2Reader {
    /// The file contents.
    pub data: Vec<u8>,
    pub public_header: Lvx2PublicHeader,
    pub private_header: Lvx2PrivateHeader,
    pub devices: Vec<Lvx2DeviceInfo>,
    /// Offset of the next frame to read.
    pub current_frame_offset: u64,
    /// Length of the file.
    pub file_size: u64,
}

/// What the next call of `read_next_frame` does.
pub enum FrameStep {
    /// End of the recording: `Ok(None)`, position unchanged.
    End,
    /// The frame header is cut off: `Err(UnexpectedEof)`, position unchanged.
    Truncated,
    /// A frame: its packages, and the offset of the next frame.
    Frame { packages: Seq<PackageView>, next: u64 },
}

/// The step the reader takes from offset `off` of the file `d`.
pub open spec fn frame_step(d: Seq<u8>, off: int) -> FrameStep {
    if off >= d.len() {
        FrameStep::End
    } else if off + 24 > d.len() {
        FrameStep::Truncated
    } else {
        let h = frame_header_at(d, off);
        if h.next_offset == h.current_offset {
            FrameStep::End
        } else {
            FrameStep::Frame {
                packages: frame_packages(d, off + 24, frame_data_size(h) as int, 0),
                next: h.next_offset,
            }
        }
    }
}

impl Lvx2Reader {

    /// Reads and checks the public header at the start of `data`.
    pub fn read_public_header(data: &[u8]) -> (r: Result<Lvx2PublicHeader, Lvx2Error>)
        ensures
            match r {
                Ok(h) => public_header_valid(data@) && h@ == public_header_at(data@),
                Err(e) => !public_header_valid(data@) && e == public_header_error(data@),
            },
    {
        if data.len() < 16 {
            return Err(Lvx2Error::UnexpectedEof);
        }
        if !has_signature(data) {
            return Err(Lvx2Error::InvalidSignature);
        }
        if data.len() < 20 {
            return Err(Lvx2Error::UnexpectedEof);
        }
        let ver_a = data[16];
        let ver_b = data[17];
        let ver_c = data[18];
        let ver_d = data[19];
        if ver_a != LVX2_VERSION_MAJOR {
            return Err(Lvx2Error::UnsupportedVersion(ver_a, ver_b, ver_c, ver_d));
        }
        if data.len() < 24 {
            return Err(Lvx2Error::UnexpectedEof);
        }
        let magic_code = read_u32_le(data, 20);
        if magic_code != LVX2_MAGIC_CODE {
            return Err(Lvx2Error::InvalidMagicCode(magic_code));
        }
        let signature: [u8; 16] = [
            data[0], data[1], data[2], data[3], data[4], data[5], data[6], data[7],
            data[8], data[9], data[10], data[11], data[12], data[13], data[14], data[15],
        ];
        let h = Lvx2PublicHeader { signature, ver_a, ver_b, ver_c, ver_d, magic_code };
        assert(h@.signature =~= data@.subrange(0, 16));
        Ok(h)
    }

    /// Reads the device record at `pos`.
    pub fn read_device_info(data: &[u8], pos: usize) -> (r: Lvx2DeviceInfo)
        requires
            pos + 63 <= data.len(),
        ensures
            r@ == device_info_at(data@, pos as int),
    {
        let lidar_sn = decode_padded_text(vstd::slice::slice_subrange(data, pos, pos + 16));
        let hub_sn = decode_padded_text(vstd::slice::slice_subrange(data, pos + 16, pos + 32));
        Lvx2DeviceInfo {
            lidar_sn,
            hub_sn,
            lidar_id: read_u32_le(data, pos + 32),
            lidar_type: data[pos + 36],
            device_type: data[pos + 37],
            enable_extrinsic: data[pos + 38] != 0,
            offset_roll_bits: read_u32_le(data, pos + 39),
            offset_pitch_bits: read_u32_le(data, pos + 43),
            offset_yaw_bits: read_u32_le(data, pos + 47),
            offset_x_bits: read_u32_le(data, pos + 51),
            offset_y_bits: read_u32_le(data, pos + 55),
            offset_z_bits: read_u32_le(data, pos + 59),
        }
    }

    /// Reads the frame header at `pos`.
    pub fn read_frame_header(data: &[u8], pos: usize) -> (r: Lvx2FrameHeader)
        requires
            pos + 24 <= data.len(),
        ensures
            r == frame_header_at(data@, pos as int),
    {
        Lvx2FrameHeader {
            current_offset: read_u64_le(data, pos),
            next_offset: read_u64_le(data, pos + 8),
            frame_index: read_u64_le(data, pos + 16),
        }
    }

    /// Reads the package at `pos`: its header, then `length` data bytes. Fails
    /// with `UnexpectedEof` when the data ends inside the package.
    pub fn read_package(data: &[u8], pos: usize) -> (r: Result<Lvx2Package, Lvx2Error>)
        ensures
            match r {
                Ok(p) => package_fits(data@, pos as int) && p@ == package_at(data@, pos as int),
                Err(e) => !package_fits(data@, pos as int) && e == Lvx2Error::UnexpectedEof,
            },
    {
        if pos > data.len() || data.len() - pos < 27 {
            return Err(Lvx2Error::UnexpectedEof);
        }
        let header = Lvx2PackageHeader {
            version: data[pos],
            lidar_id: read_u32_le(data, pos + 1),
            lidar_type: data[pos + 5],
            timestamp_type: data[pos + 6],
            timestamp: read_u64_le(data, pos + 7),
            udp_count: read_u16_le(data, pos + 15),
            data_type: data[pos + 17],
            length: read_u32_le(data, pos + 18),
            frame_count: data[pos + 22],
            reserved: [data[pos + 23], data[pos + 24], data[pos + 25], data[pos + 26]],
        };
        let length = header.length as usize;
        if data.len() - (pos + 27) < length {
            return Err(Lvx2Error::UnexpectedEof);
        }
        let body = vstd::slice::slice_to_vec(
            vstd::slice::slice_subrange(data, pos + 27, pos + 27 + length),
        );
        let p = Lvx2Package { header, data: body };
        assert(p@.header.reserved =~= package_header_at(data@, pos as int).reserved);
        Ok(p)
    }

    /// Decodes an IMU package (data type 0, 24 data bytes).
    pub fn parse_imu_data(package: &Lvx2Package) -> (r: Result<ImuDataBits, Lvx2Error>)
        ensures
            match r {
                Ok(imu) => package.header.data_type == 0 && package.data@.len() == 24 && imu
                    == imu_data_at(package.data@, 0),
                Err(e) => if package.header.data_type != 0 {
                    e == Lvx2Error::NotImuData
                } else {
                    package.data@.len() != 24 && e == Lvx2Error::InvalidImuLength(
                        package.data@.len() as usize,
                    )
                },
            },
    {
        if package.header.data_type != 0 {
            return Err(Lvx2Error::NotImuData);
        }
        if package.data.len() != IMU_DATA_SIZE {
            return Err(Lvx2Error::InvalidImuLength(package.data.len()));
        }
        Ok(read_imu_data(package.data.as_slice(), 0))
    }

    /// Decodes a point-cloud package of data type 1 (14 bytes per point).
    pub fn parse_point_cloud_type1(package: &Lvx2Package) -> (r: Result<Vec<PointType1>, Lvx2Error>)
        ensures
            match r {
                Ok(points) => package.header.data_type == 1 && package.data@.len() % 14 == 0
                    && points@ == points_type1(
                    package.data@,
                    0,
                    (package.data@.len() / 14) as nat,
                ),
                Err(e) => if package.header.data_type != 1 {
                    e == Lvx2Error::NotPointCloudType1
                } else {
                    package.data@.len() % 14 != 0 && e == Lvx2Error::InvalidPointCloudLength(
                        package.data@.len() as usize,
                    )
                },
            },
    {
        if package.header.data_type != 1 {
            return Err(Lvx2Error::NotPointCloudType1);
        }
        let len = package.data.len();
        if len % POINT_TYPE1_SIZE != 0 {
            return Err(Lvx2Error::InvalidPointCloudLength(len));
        }
        let count = len / POINT_TYPE1_SIZE;
        assert(14 * count == len);
        Ok(decode_points_type1(package.data.as_slice(), 0, count))
    }

    /// Total size of the public and private headers.
    pub fn get_header_size() -> (r: usize)
        ensures
            r == 29,
    {
        PUBLIC_HEADER_SIZE + PRIVATE_HEADER_SIZE
    }

    /// The file contents.
    pub open spec fn bytes(&self) -> Seq<u8> {
        self.data@
    }

    /// Offset of the next frame to read.
    pub open spec fn offset(&self) -> int {
        self.current_frame_offset as int
    }

    /// The reader's own bookkeeping is consistent with its contents.
    pub open spec fn wf(&self) -> bool {
        self.file_size == self.data@.len()
    }

    /// Parses the headers and device records of an LVX2 file whose contents
    /// are `data`; the reader is then positioned at the first frame.
    pub fn from_bytes(data: Vec<u8>) -> (r: Result<Lvx2Reader, Lvx2Error>)
        ensures
            match r {
                Ok(rd) => {
                    &&& opens(data@)
                    &&& rd.wf()
                    &&& rd.bytes() == data@
                    &&& rd.offset() == first_frame_offset(data@[28] as int)
                    &&& rd.public_header@ == public_header_at(data@)
                    &&& rd.private_header == private_header_at(data@)
                    &&& rd.devices@.map_values(|x: Lvx2DeviceInfo| x@) == device_infos(data@)
                },
                Err(e) => !opens(data@) && e == open_error(data@),
            },
    {
        let public_header = match Self::read_public_header(data.as_slice()) {
            Ok(h) => h,
            Err(e) => return Err(e),
        };
        if data.len() < 29 {
            return Err(Lvx2Error::UnexpectedEof);
        }
        let private_header = Lvx2PrivateHeader {
            duration: read_u32_le(data.as_slice(), 24),
            device_count: data[28],
        };
        let count = private_header.device_count as usize;
        if data.len() < 29 + 63 * count {
            return Err(Lvx2Error::UnexpectedEof);
        }
        let mut devices: Vec<Lvx2DeviceInfo> = Vec::new();
        let mut i: usize = 0;
        let mut pos: usize = 29;
        while i < count
            invariant
                count == data@[28],
                data@.len() >= 29 + 63 * count,
                i <= count,
                pos == 29 + 63 * i,
                devices@.map_values(|x: Lvx2DeviceInfo| x@) == device_infos(data@).take(i as int),
            decreases count - i,
        {
            let dev = Self::read_device_info(data.as_slice(), pos);
            let ghost dv = dev@;
            let ghost before = devices@.map_values(|x: Lvx2DeviceInfo| x@);
            devices.push(dev);
            proof {
                assert(devices@.map_values(|x: Lvx2DeviceInfo| x@) =~= before.push(dv));
                assert(device_infos(data@).take((i + 1) as int) =~= device_infos(data@).take(
                    i as int,
                ).push(device_infos(data@)[i as int]));
            }
            i = i + 1;
            pos = pos + 63;
        }
        proof {
            assert(device_infos(data@).take(count as int) =~= device_infos(data@));
        }
        let file_size = data.len() as u64;
        Ok(
            Lvx2Reader {
                data,
                public_header,
                private_header,
                devices,
                current_frame_offset: pos as u64,
                file_size,
            },
        )
    }

    /// Whether the next `read_next_frame` would meet a frame header whose
    /// frame size cannot be computed (see `frame_size_underflows`).
    pub fn next_frame_is_malformed(&self) -> (b: bool)
        requires
            self.wf(),
        ensures
            b == frame_size_underflows(self.bytes(), self.offset()),
    {
        if self.current_frame_offset >= self.file_size {
            return false;
        }
        let off = self.current_frame_offset as usize;
        if self.data.len() - off < 24 {
            return false;
        }
        let h = Self::read_frame_header(self.data.as_slice(), off);
        h.next_offset != h.current_offset && (h.next_offset < h.current_offset
            || h.next_offset - h.current_offset < 24)
    }

    /// Reads the packages of the next frame and moves to the frame after it.
    /// Returns `None` at the end of the recording: when the position is at or
    /// past the end of the file, or when the frame header's next offset equals
    /// its current offset. Packages are read until the frame's data size has
    /// been consumed; a package cut off by the end of the file ends the frame.
    pub fn read_next_frame(&mut self) -> (r: Result<Option<Vec<Lvx2Package>>, Lvx2Error>)
        requires
            old(self).wf(),
            !frame_size_underflows(old(self).bytes(), old(self).offset()),
        ensures
            final(self).wf(),
            final(self).bytes() == old(self).bytes(),
            final(self).public_header == old(self).public_header,
            final(self).private_header == old(self).private_header,
            final(self).devices@ == old(self).devices@,
            match frame_step(old(self).bytes(), old(self).offset()) {
                FrameStep::End => r == Ok::<Option<Vec<Lvx2Package>>, Lvx2Error>(None)
                    && final(self).offset() == old(self).offset(),
                FrameStep::Truncated => r == Err::<Option<Vec<Lvx2Package>>, Lvx2Error>(
                    Lvx2Error::UnexpectedEof,
                ) && final(self).offset() == old(self).offset(),
                FrameStep::Frame { packages, next } => match r {
                    Ok(Some(ps)) => ps@.map_values(|p: Lvx2Package| p@) == packages
                        && final(self).offset() == next,
                    _ => false,
                },
            },
    {
        if self.current_frame_offset >= self.file_size {
            return Ok(None);
        }
        let off = self.current_frame_offset as usize;
        if self.data.len() - off < FRAME_HEADER_SIZE {
            return Err(Lvx2Error::UnexpectedEof);
        }
        let frame_header = Self::read_frame_header(self.data.as_slice(), off);
        if frame_header.next_offset == frame_header.current_offset {
            return Ok(None);
        }
        let size64: u64 = frame_header.next_offset - frame_header.current_offset - 24;
        let frame_data_size: usize = size64 as usize;
        let ghost d = self.data@;
        assert(d.len() == self.data.len());
        let mut packages: Vec<Lvx2Package> = Vec::new();
        let mut bytes_read: usize = 0;
        let mut pos: usize = off + 24;
        while bytes_read < frame_data_size
            invariant
                d == self.data@,
                d.len() <= usize::MAX,
                pos <= d.len(),
                bytes_read + (off + 24) == pos,
                packages@.map_values(|p: Lvx2Package| p@) + frame_packages(
                    d,
                    pos as int,
                    frame_data_size as int,
                    bytes_read as int,
                ) == frame_packages(d, off + 24, frame_data_size as int, 0),
            ensures
                packages@.map_values(|p: Lvx2Package| p@) == frame_packages(
                    d,
                    off + 24,
                    frame_data_size as int,
                    0,
                ),
            decreases d.len() - pos,
        {
            match Self::read_package(self.data.as_slice(), pos) {
                Ok(package) => {
                    let span = 27 + package.data.len();
                    let ghost old_seq = packages@.map_values(|p: Lvx2Package| p@);
                    let ghost rest = frame_packages(
                        d,
                        pos + span,
                        frame_data_size as int,
                        bytes_read + span,
                    );
                    assert(frame_packages(d, pos as int, frame_data_size as int, bytes_read as int)
                        == seq![package@] + rest);
                    packages.push(package);
                    assert(packages@.map_values(|p: Lvx2Package| p@) =~= old_seq.push(
                        packages@.last()@,
                    ));
                    assert(old_seq.push(packages@.last()@) + rest =~= old_seq + (seq![
                        packages@.last()@,
                    ] + rest));
                    bytes_read = bytes_read + span;
                    pos = pos + span;
                    if bytes_read >= frame_data_size {
                        assert(packages@.map_values(|p: Lvx2Package| p@) + seq![] =~= packages@.map_values(|p: Lvx2Package| p@));
                    }
                },
                Err(_) => {
                    assert(packages@.map_values(|p: Lvx2Package| p@) + seq![] =~= packages@.map_values(|p: Lvx2Package| p@));
                    break ;
                },
            }
        }
        self.current_frame_offset = frame_header.next_offset;
        Ok(Some(packages))
    }
}

} // verus!
