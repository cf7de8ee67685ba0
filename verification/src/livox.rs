//! Decoding of the UDP packets a Livox Mid-360 streams.
//!
//! A packet is a 36-byte header followed by a payload. Header fields used
//! here (little-endian): total packet length (u16 at byte 1), number of
//! points (u16 at byte 5), data type (byte 10: 0 = IMU, 1 = Cartesian 32-bit
//! points) and timestamp in nanoseconds (u64 at byte 28). The payload runs
//! from byte 36 to the packet length; points use the same 14-byte layout as
//! LVX2 data type 1, the IMU sample the same six 32-bit floats.
use crate::bytes::{le_u16, le_u64, read_u16_le, read_u64_le};
use crate::lvx2::{
    decode_points_type1, imu_data_at, points_type1, read_imu_data, ImuDataBits, PackageView,
    PointType1,
};
use vstd::prelude::*;

verus! {

/// Size of the packet header.
pub const RAW_HEADER_SIZE: usize = 36;

/// A decoded packet.
#[derive(Debug, Clone)]
pub enum RawPacket {
    /// Point cloud: timestamp in nanoseconds and every point of the packet,
    /// coordinates in millimetres.
    Lidar { timestamp: u64, points: Vec<PointType1> },
    /// IMU sample with its timestamp in nanoseconds.
    Imu { timestamp: u64, imu: ImuDataBits },
}

/// Why a packet could not be decoded.
#[derive(Debug, Clone, PartialEq, Eq, Structural)]
pub enum RawDecodeError {
    /// Fewer than 36 bytes.
    TooShortForHeader,
    /// Fewer bytes than the length field announces.
    TooShortForPayload,
    /// A point packet whose payload is not 14 bytes per announced point.
    PayloadSizeMismatch,
    /// An IMU packet whose payload is shorter than 24 bytes.
    ImuPayloadTooShort,
    /// A data type other than 0 and 1 (the type is kept).
    UnknownDataType(u8),
}

/// Packet length announced by the header.
pub open spec fn raw_length(d: Seq<u8>) -> int {
    le_u16(d, 1)
}

/// Number of points announced by the header.
pub open spec fn raw_dot_num(d: Seq<u8>) -> int {
    le_u16(d, 5)
}

/// The header is complete, the packet holds the bytes the length field
/// announces, but that length is shorter than the header, so that the
/// payload range `36..length` runs backwards and cannot be taken.
pub open spec fn raw_payload_range_reversed(d: Seq<u8>) -> bool {
    d.len() >= 36 && raw_length(d) <= d.len() && raw_length(d) < 36
}

/// The error a packet is rejected with, if any.
pub open spec fn raw_decode_error(d: Seq<u8>) -> Option<RawDecodeError> {
    if d.len() < 36 {
        Some(RawDecodeError::TooShortForHeader)
    } else if d.len() < raw_length(d) {
        Some(RawDecodeError::TooShortForPayload)
    } else if d[10] == 1 {
        if raw_length(d) - 36 != 14 * raw_dot_num(d) {
            Some(RawDecodeError::PayloadSizeMismatch)
        } else {
            None
        }
    } else if d[10] == 0 {
        if raw_length(d) - 36 < 24 {
            Some(RawDecodeError::ImuPayloadTooShort)
        } else {
            None
        }
    } else {
        Some(RawDecodeError::UnknownDataType(d[10]))
    }
}

/// The payload bytes of a packet.
pub open spec fn raw_payload(d: Seq<u8>) -> Seq<u8> {
    d.subrange(36, raw_length(d))
}

/// Whether decoding `data` would have to take a reversed payload range.
pub fn rawdata_range_reversed(data: &[u8]) -> (b: bool)
    ensures
        b == raw_payload_range_reversed(data@),
{
    if data.len() < RAW_HEADER_SIZE {
        return false;
    }
    let length = read_u16_le(data, 1) as usize;
    length <= data.len() && length < RAW_HEADER_SIZE
}

/// Decodes one packet. Point packets yield all their points; IMU packets
/// yield the six raw words at the start of the payload.
pub fn rawdata_decoder(data: &[u8]) -> (r: Result<RawPacket, RawDecodeError>)
    requires
        !raw_payload_range_reversed(data@),
    ensures
        match r {
            Ok(RawPacket::Lidar { timestamp, points }) => {
                &&& raw_decode_error(data@) is None
                &&& data@[10] == 1
                &&& timestamp == le_u64(data@, 28)
                &&& points@ == points_type1(data@, 36, raw_dot_num(data@) as nat)
            },
            Ok(RawPacket::Imu { timestamp, imu }) => {
                &&& raw_decode_error(data@) is None
                &&& data@[10] == 0
                &&& timestamp == le_u64(data@, 28)
                &&& imu == imu_data_at(data@, 36)
            },
            Err(e) => raw_decode_error(data@) == Some(e),
        },
{
    if data.len() < RAW_HEADER_SIZE {
        return Err(RawDecodeError::TooShortForHeader);
    }
    let length = read_u16_le(data, 1) as usize;
    let dot_num = read_u16_le(data, 5) as usize;
    let data_type = data[10];
    let timestamp = read_u64_le(data, 28);
    if data.len() < length {
        return Err(RawDecodeError::TooShortForPayload);
    }
    let payload_len = length - RAW_HEADER_SIZE;
    if data_type == 1 {
        if payload_len != dot_num * 14 {
            return Err(RawDecodeError::PayloadSizeMismatch);
        }
        let points = decode_points_type1(data, RAW_HEADER_SIZE, dot_num);
        Ok(RawPacket::Lidar { timestamp, points })
    } else if data_type == 0 {
        if payload_len < 24 {
            return Err(RawDecodeError::ImuPayloadTooShort);
        }
        Ok(RawPacket::Imu { timestamp, imu: read_imu_data(data, RAW_HEADER_SIZE) })
    } else {
        Err(RawDecodeError::UnknownDataType(data_type))
    }
}

/// The points of a Mid-360 point packet are exactly what
/// `parse_point_cloud_type1` yields for an LVX2 package of data type 1 that
/// carries the packet's payload: both formats store the same 14-byte points.
pub proof fn lemma_udp_points_match_lvx2_type1(d: Seq<u8>, package: PackageView)
    requires
        raw_decode_error(d) is None,
        d[10] == 1,
        package.header.data_type == 1,
        package.data == raw_payload(d),
    ensures
        package.data.len() % 14 == 0,
        points_type1(d, 36, raw_dot_num(d) as nat) == points_type1(
            package.data,
            0,
            (package.data.len() / 14) as nat,
        ),
{
    let n = raw_dot_num(d);
    assert(package.data.len() == 14 * n);
    assert(package.data.len() / 14 == n);
    assert forall|i: int| 0 <= i < n implies #[trigger] points_type1(d, 36, n as nat)[i]
        == points_type1(package.data, 0, n as nat)[i] by {
        assert(package.data[14 * i] == d[36 + 14 * i]);
        assert(package.data[14 * i + 1] == d[36 + 14 * i + 1]);
        assert(package.data[14 * i + 2] == d[36 + 14 * i + 2]);
        assert(package.data[14 * i + 3] == d[36 + 14 * i + 3]);
        assert(package.data[14 * i + 4] == d[36 + 14 * i + 4]);
        assert(package.data[14 * i + 5] == d[36 + 14 * i + 5]);
        assert(package.data[14 * i + 6] == d[36 + 14 * i + 6]);
        assert(package.data[14 * i + 7] == d[36 + 14 * i + 7]);
        assert(package.data[14 * i + 8] == d[36 + 14 * i + 8]);
        assert(package.data[14 * i + 9] == d[36 + 14 * i + 9]);
        assert(package.data[14 * i + 10] == d[36 + 14 * i + 10]);
        assert(package.data[14 * i + 11] == d[36 + 14 * i + 11]);
        assert(package.data[14 * i + 12] == d[36 + 14 * i + 12]);
        assert(package.data[14 * i + 13] == d[36 + 14 * i + 13]);
    }
    assert(points_type1(d, 36, n as nat) =~= points_type1(package.data, 0, n as nat));
}

} // verus!
