//! Decoding of ROS1 `sensor_msgs/Imu` and `sensor_msgs/PointCloud2` messages
//! as they are stored in bag files (little-endian ROS1 serialisation).
//!
//! Strings are a u32 byte count followed by the bytes; arrays are a u32
//! element count followed by the elements. Floating-point values are kept as
//! their IEEE bit patterns.
use crate::bytes::{le_u32, le_u64, read_u32_le, read_u64_le};
use crate::text::{decode_padded_text, padded_text};
use vstd::prelude::*;

verus! {

/// Why a message could not be decoded: every failure is the message ending
/// inside a field that had to be read.
#[derive(Debug, Clone, Copy, PartialEq, Eq, Structural)]
pub enum RosParseError {
    UnexpectedEof,
}

/// One entry of the `fields` array of a PointCloud2 message.
#[derive(Debug, Clone)]
pub struct PointField {
    pub name: String,
    pub offset: u32,
    pub datatype: u8,
    pub count: u32,
}

/// Mathematical content of a `PointField`.
pub struct PointFieldView {
    pub name: Seq<char>,
    pub offset: u32,
    pub datatype: u8,
    pub count: u32,
}

impl View for PointField {
    type V = PointFieldView;

    open spec fn view(&self) -> PointFieldView {
        PointFieldView {
            name: self.name@,
            offset: self.offset,
            datatype: self.datatype,
            count: self.count,
        }
    }
}

/// An IMU message: header stamp, angular velocity and linear acceleration
/// (each component a 64-bit float kept as its bit pattern).
#[derive(Debug, Clone, Copy, PartialEq, Eq, Structural)]
pub struct RosImuBits {
    pub stamp_sec: u32,
    pub stamp_nsec: u32,
    pub gyr_x: u64,
    pub gyr_y: u64,
    pub gyr_z: u64,
    pub acc_x: u64,
    pub acc_y: u64,
    pub acc_z: u64,
}

/// Intensity of a point, as stored by the intensity field's data type.
#[derive(Debug, Clone, Copy, PartialEq, Eq, Structural)]
pub enum RosIntensity {
    /// Data type 7: a 32-bit float (bit pattern).
    Float32(u32),
    /// Data type 2: an unsigned byte.
    Uint8(u8),
    /// No intensity field, or one of another data type.
    Zero,
}

/// A point of a PointCloud2 message: coordinates as 32-bit float bit
/// patterns, and its intensity.
#[derive(Debug, Clone, Copy, PartialEq, Eq, Structural)]
pub struct RosPointBits {
    pub x: u32,
    pub y: u32,
    pub z: u32,
    pub intensity: RosIntensity,
}

/// A decoded PointCloud2 message.
#[derive(Debug, Clone)]
pub struct RosPointCloud2 {
    pub stamp_sec: u32,
    pub stamp_nsec: u32,
    pub height: u32,
    pub width: u32,
    pub fields: Vec<PointField>,
    pub points: Vec<RosPointBits>,
}

/// Mathematical content of a `RosPointCloud2`.
pub struct RosPointCloud2View {
    pub stamp_sec: u32,
    pub stamp_nsec: u32,
    pub height: u32,
    pub width: u32,
    pub fields: Seq<PointFieldView>,
    pub points: Seq<RosPointBits>,
}

impl View for RosPointCloud2 {
    type V = RosPointCloud2View;

    open spec fn view(&self) -> RosPointCloud2View {
        RosPointCloud2View {
            stamp_sec: self.stamp_sec,
            stamp_nsec: self.stamp_nsec,
            height: self.height,
            width: self.width,
            fields: self.fields@.map_values(|f: PointField| f@),
            points: self.points@,
        }
    }
}

// ---------------------------------------------------------------------------
// The format, stated over byte sequences
// ---------------------------------------------------------------------------

/// The string stored at `pos` and the position after it, if it is complete.
pub open spec fn ros_string_at(d: Seq<u8>, pos: int) -> Option<(Seq<char>, int)> {
    if pos + 4 > d.len() {
        None
    } else if pos + 4 + le_u32(d, pos) > d.len() {
        None
    } else {
        Some((padded_text(d.subrange(pos + 4, pos + 4 + le_u32(d, pos))), pos + 4 + le_u32(d, pos)))
    }
}

/// Position right after the header (seq, stamp, frame id), if it is complete.
pub open spec fn after_header(d: Seq<u8>) -> Option<int> {
    if d.len() < 12 {
        None
    } else {
        match ros_string_at(d, 12) {
            Some((_, p)) => Some(p),
            None => None,
        }
    }
}

/// The IMU message stored in `d`, if it is complete. After the header come
/// the orientation (4 doubles) and its covariance (9 doubles), both skipped,
/// the angular velocity (3 doubles), its covariance (skipped), and the
/// linear acceleration (3 doubles).
pub open spec fn imu_message(d: Seq<u8>) -> Option<RosImuBits> {
    match after_header(d) {
        None => None,
        Some(p) => if p + 224 > d.len() {
            None
        } else {
            Some(
                RosImuBits {
                    stamp_sec: le_u32(d, 4) as u32,
                    stamp_nsec: le_u32(d, 8) as u32,
                    gyr_x: le_u64(d, p + 104) as u64,
                    gyr_y: le_u64(d, p + 112) as u64,
                    gyr_z: le_u64(d, p + 120) as u64,
                    acc_x: le_u64(d, p + 200) as u64,
                    acc_y: le_u64(d, p + 208) as u64,
                    acc_z: le_u64(d, p + 216) as u64,
                },
            )
        },
    }
}

/// Layout of an IMU message: the stamp's seconds and nanoseconds words at 4
/// and 8, then, after the header, the angular velocity x, y, z as 64-bit
/// words at 104, 112, 120 and the linear acceleration x, y, z at 200, 208,
/// 216.
pub proof fn lemma_imu_message_layout(d: Seq<u8>)
    requires
        imu_message(d) is Some,
    ensures
        ({
            let m = imu_message(d)->0;
            let p = after_header(d)->0;
            &&& m.stamp_sec == crate::lvx2::word_at(d, 4)
            &&& m.stamp_nsec == crate::lvx2::word_at(d, 8)
            &&& m.gyr_x == crate::lvx2::dword_at(d, p + 104)
            &&& m.gyr_y == crate::lvx2::dword_at(d, p + 112)
            &&& m.gyr_z == crate::lvx2::dword_at(d, p + 120)
            &&& m.acc_x == crate::lvx2::dword_at(d, p + 200)
            &&& m.acc_y == crate::lvx2::dword_at(d, p + 208)
            &&& m.acc_z == crate::lvx2::dword_at(d, p + 216)
        }),
{
}

/// The field entry stored at `pos` and the position after it.
pub open spec fn field_at(d: Seq<u8>, pos: int) -> Option<(PointFieldView, int)> {
    match ros_string_at(d, pos) {
        None => None,
        Some((name, q)) => if q + 9 > d.len() {
            None
        } else {
            Some(
                (
                    PointFieldView {
                        name,
                        offset: le_u32(d, q) as u32,
                        datatype: d[q + 4],
                        count: le_u32(d, q + 5) as u32,
                    },
                    q + 9,
                ),
            )
        },
    }
}

/// The `n` field entries stored from `pos` and the position after them.
pub open spec fn fields_at(d: Seq<u8>, pos: int, n: nat) -> Option<(Seq<PointFieldView>, int)>
    decreases n,
{
    if n == 0 {
        Some((seq![], pos))
    } else {
        match fields_at(d, pos, (n - 1) as nat) {
            None => None,
            Some((fs, q)) => match field_at(d, q) {
                None => None,
                Some((f, q2)) => Some((fs.push(f), q2)),
            },
        }
    }
}

/// Everything of a PointCloud2 message but its points.
pub struct CloudLayout {
    pub stamp_sec: u32,
    pub stamp_nsec: u32,
    pub height: u32,
    pub width: u32,
    pub fields: Seq<PointFieldView>,
    pub point_step: u32,
    /// Position of the point data in the message.
    pub data_start: int,
    /// Length of the point data.
    pub data_len: int,
}

/// The layout of the PointCloud2 message stored in `d`, if every field up to
/// the final `is_dense` byte is complete.
pub open spec fn cloud_layout(d: Seq<u8>) -> Option<CloudLayout> {
    match after_header(d) {
        None => None,
        Some(p) => if p + 12 > d.len() {
            None
        } else {
            match fields_at(d, p + 12, le_u32(d, p + 8) as nat) {
                None => None,
                Some((fields, r)) => if r + 13 > d.len() {
                    None
                } else if r + 13 + le_u32(d, r + 9) + 1 > d.len() {
                    None
                } else {
                    Some(
                        CloudLayout {
                            stamp_sec: le_u32(d, 4) as u32,
                            stamp_nsec: le_u32(d, 8) as u32,
                            height: le_u32(d, p) as u32,
                            width: le_u32(d, p + 4) as u32,
                            fields,
                            point_step: le_u32(d, r + 1) as u32,
                            data_start: r + 13,
                            data_len: le_u32(d, r + 9),
                        },
                    )
                },
            }
        },
    }
}

/// The first field with the given name.
pub open spec fn find_field(fields: Seq<PointFieldView>, name: Seq<char>) -> Option<PointFieldView>
    decreases fields.len(),
{
    if fields.len() == 0 {
        None
    } else if fields[0].name == name {
        Some(fields[0])
    } else {
        find_field(fields.drop_first(), name)
    }
}

/// The name is one that denotes intensity.
pub open spec fn is_intensity_name(name: Seq<char>) -> bool {
    name == "intensity"@ || name == "i"@
}

/// The first field that denotes intensity.
pub open spec fn find_intensity_field(fields: Seq<PointFieldView>) -> Option<PointFieldView>
    decreases fields.len(),
{
    if fields.len() == 0 {
        None
    } else if is_intensity_name(fields[0].name) {
        Some(fields[0])
    } else {
        find_intensity_field(fields.drop_first())
    }
}

/// Offset of the field of that name, or `default` when there is none.
pub open spec fn field_offset(fields: Seq<PointFieldView>, name: Seq<char>, default: u32) -> u32 {
    match find_field(fields, name) {
        Some(f) => f.offset,
        None => default,
    }
}

/// Offset of the intensity field, or 12 when there is none.
pub open spec fn intensity_offset(fields: Seq<PointFieldView>) -> u32 {
    match find_intensity_field(fields) {
        Some(f) => f.offset,
        None => 12,
    }
}

/// Number of points: whole point steps in the data (none when the step is 0).
pub open spec fn point_count(l: CloudLayout) -> int {
    if l.point_step > 0 {
        l.data_len / (l.point_step as int)
    } else {
        0
    }
}

/// A 4-byte value at `off` within the point starting at `base` lies inside
/// the point data.
pub open spec fn word_fits(l: CloudLayout, base: int, off: u32) -> bool {
    base + off + 4 <= l.data_len
}

/// The point stored at `base` within the point data, if all the values it
/// needs lie inside the point data (a value may reach into later points).
pub open spec fn point_at(d: Seq<u8>, l: CloudLayout, base: int) -> Option<RosPointBits> {
    let xo = field_offset(l.fields, "x"@, 0);
    let yo = field_offset(l.fields, "y"@, 4);
    let zo = field_offset(l.fields, "z"@, 8);
    let io = intensity_offset(l.fields);
    let at = l.data_start + base;
    if !word_fits(l, base, xo) || !word_fits(l, base, yo) || !word_fits(l, base, zo) {
        None
    } else {
        let intensity = match find_intensity_field(l.fields) {
            None => Some(RosIntensity::Zero),
            Some(f) => if f.datatype == 7 {
                if word_fits(l, base, io) {
                    Some(RosIntensity::Float32(le_u32(d, at + io) as u32))
                } else {
                    None
                }
            } else if f.datatype == 2 {
                if base + io + 1 <= l.data_len {
                    Some(RosIntensity::Uint8(d[at + io]))
                } else {
                    None
                }
            } else {
                Some(RosIntensity::Zero)
            },
        };
        match intensity {
            None => None,
            Some(i) => Some(
                RosPointBits {
                    x: le_u32(d, at + xo) as u32,
                    y: le_u32(d, at + yo) as u32,
                    z: le_u32(d, at + zo) as u32,
                    intensity: i,
                },
            ),
        }
    }
}

/// Every point of the message can be read.
pub open spec fn points_readable(d: Seq<u8>, l: CloudLayout) -> bool {
    forall|i: int| 0 <= i < point_count(l) ==> (#[trigger] point_at(d, l, i * l.point_step)) is Some
}

/// The points of the message.
pub open spec fn cloud_points(d: Seq<u8>, l: CloudLayout) -> Seq<RosPointBits> {
    Seq::new(point_count(l) as nat, |i: int| point_at(d, l, i * l.point_step)->0)
}

/// The message decodes: its layout is complete and all its points readable.
pub open spec fn cloud_decodes(d: Seq<u8>) -> bool {
    match cloud_layout(d) {
        Some(l) => points_readable(d, l),
        None => false,
    }
}

/// The PointCloud2 message stored in `d`, if it decodes.
pub open spec fn cloud_message(d: Seq<u8>) -> Option<RosPointCloud2View> {
    if cloud_decodes(d) {
        let l = cloud_layout(d)->0;
        Some(
            RosPointCloud2View {
                stamp_sec: l.stamp_sec,
                stamp_nsec: l.stamp_nsec,
                height: l.height,
                width: l.width,
                fields: l.fields,
                points: cloud_points(d, l),
            },
        )
    } else {
        None
    }
}

// ---------------------------------------------------------------------------
// Decoding
// ---------------------------------------------------------------------------

/// Reads the string stored at `pos`: the byte count, then the bytes, decoded
/// as NUL-padded text. Returns the string and the position after it.
pub fn parse_ros_string(data: &[u8], pos: usize) -> (r: Result<(String, usize), RosParseError>)
    ensures
        match r {
            Ok((s, next)) => ros_string_at(data@, pos as int) == Some((s@, next as int)),
            Err(_) => ros_string_at(data@, pos as int) is None,
        },
{
    if pos > data.len() || data.len() - pos < 4 {
        return Err(RosParseError::UnexpectedEof);
    }
    let n = read_u32_le(data, pos) as usize;
    if data.len() - (pos + 4) < n {
        return Err(RosParseError::UnexpectedEof);
    }
    let s = decode_padded_text(vstd::slice::slice_subrange(data, pos + 4, pos + 4 + n));
    Ok((s, pos + 4 + n))
}

/// Reads the header (sequence number, stamp, frame id); returns the stamp
/// and the position after the header.
fn parse_header(data: &[u8]) -> (r: Result<(u32, u32, usize), RosParseError>)
    ensures
        match r {
            Ok((sec, nsec, p)) => after_header(data@) == Some(p as int) && sec == le_u32(data@, 4)
                && nsec == le_u32(data@, 8),
            Err(_) => after_header(data@) is None,
        },
{
    if data.len() < 12 {
        return Err(RosParseError::UnexpectedEof);
    }
    let sec = read_u32_le(data, 4);
    let nsec = read_u32_le(data, 8);
    match parse_ros_string(data, 12) {
        Ok((_frame_id, p)) => Ok((sec, nsec, p)),
        Err(e) => Err(e),
    }
}

/// Decodes a `sensor_msgs/Imu` message.
pub fn parse_imu_message(data: &[u8]) -> (r: Result<RosImuBits, RosParseError>)
    ensures
        match r {
            Ok(imu) => imu_message(data@) == Some(imu),
            Err(_) => imu_message(data@) is None,
        },
{
    let (stamp_sec, stamp_nsec, p) = match parse_header(data) {
        Ok(h) => h,
        Err(e) => return Err(e),
    };
    if data.len() - p < 224 {
        return Err(RosParseError::UnexpectedEof);
    }
    Ok(
        RosImuBits {
            stamp_sec,
            stamp_nsec,
            gyr_x: read_u64_le(data, p + 104),
            gyr_y: read_u64_le(data, p + 112),
            gyr_z: read_u64_le(data, p + 120),
            acc_x: read_u64_le(data, p + 200),
            acc_y: read_u64_le(data, p + 208),
            acc_z: read_u64_le(data, p + 216),
        },
    )
}

/// Reads `n` field entries starting at `pos`; returns them and the position
/// after them.
pub fn parse_point_fields(data: &[u8], pos: usize, n: u32) -> (r: Result<
    (Vec<PointField>, usize),
    RosParseError,
>)
    ensures
        match r {
            Ok((fields, next)) => fields_at(data@, pos as int, n as nat) == Some(
                (fields@.map_values(|f: PointField| f@), next as int),
            ),
            Err(_) => fields_at(data@, pos as int, n as nat) is None,
        },
{
    let mut fields: Vec<PointField> = Vec::new();
    let mut q = pos;
    let mut i: u32 = 0;
    while i < n
        invariant
            i <= n,
            fields_at(data@, pos as int, i as nat) == Some(
                (fields@.map_values(|f: PointField| f@), q as int),
            ),
        decreases n - i,
    {
        let (name, q1) = match parse_ros_string(data, q) {
            Ok(s) => s,
            Err(e) => {
                proof {
                    lemma_fields_fail_later(data@, pos as int, (i + 1) as nat, n as nat);
                }
                return Err(e);
            },
        };
        if data.len() - q1 < 9 {
            proof {
                lemma_fields_fail_later(data@, pos as int, (i + 1) as nat, n as nat);
            }
            return Err(RosParseError::UnexpectedEof);
        }
        let field = PointField {
            name,
            offset: read_u32_le(data, q1),
            datatype: data[q1 + 4],
            count: read_u32_le(data, q1 + 5),
        };
        let ghost before = fields@.map_values(|f: PointField| f@);
        let ghost fv = field@;
        fields.push(field);
        proof {
            assert(fields@.map_values(|f: PointField| f@) =~= before.push(fv));
        }
        q = q1 + 9;
        i = i + 1;
    }
    Ok((fields, q))
}

/// Once the entries cannot all be read up to `m`, they cannot be read up to
/// any later count either.
proof fn lemma_fields_fail_later(d: Seq<u8>, pos: int, m: nat, n: nat)
    requires
        m <= n,
        fields_at(d, pos, m) is None,
    ensures
        fields_at(d, pos, n) is None,
    decreases n - m,
{
    if m < n {
        lemma_fields_fail_later(d, pos, (m + 1) as nat, n);
    }
}

/// Whether a string holds exactly the characters of a literal.
fn name_is(name: &String, literal: &str) -> (b: bool)
    ensures
        b == (name@ == literal@),
{
    let owned = literal.to_owned();
    *name == owned
}

/// Offset of the first field called `name`, or `default`.
fn find_field_offset(fields: &Vec<PointField>, name: &str, default: u32) -> (r: u32)
    ensures
        r == field_offset(fields@.map_values(|f: PointField| f@), name@, default),
{
    let ghost all = fields@.map_values(|f: PointField| f@);
    assert(all.subrange(0, all.len() as int) =~= all);
    let mut i: usize = 0;
    while i < fields.len()
        invariant
            all == fields@.map_values(|f: PointField| f@),
            i <= fields.len(),
            find_field(all, name@) == find_field(all.subrange(i as int, all.len() as int), name@),
        decreases fields.len() - i,
    {
        let ghost rest = all.subrange(i as int, all.len() as int);
        assert(rest[0] == all[i as int]);
        assert(rest.drop_first() =~= all.subrange(i + 1, all.len() as int));
        if name_is(&fields[i].name, name) {
            return fields[i].offset;
        }
        i = i + 1;
    }
    assert(all.subrange(i as int, all.len() as int) =~= Seq::<PointFieldView>::empty());
    default
}

/// Index of the first field that denotes intensity, if any.
fn find_intensity_index(fields: &Vec<PointField>) -> (r: Option<usize>)
    ensures
        match r {
            Some(k) => k < fields@.len() && find_intensity_field(
                fields@.map_values(|f: PointField| f@),
            ) == Some(fields@[k as int]@),
            None => find_intensity_field(fields@.map_values(|f: PointField| f@)) is None,
        },
{
    let ghost all = fields@.map_values(|f: PointField| f@);
    assert(all.subrange(0, all.len() as int) =~= all);
    let mut i: usize = 0;
    while i < fields.len()
        invariant
            all == fields@.map_values(|f: PointField| f@),
            i <= fields.len(),
            find_intensity_field(all) == find_intensity_field(
                all.subrange(i as int, all.len() as int),
            ),
        decreases fields.len() - i,
    {
        let ghost rest = all.subrange(i as int, all.len() as int);
        assert(rest[0] == all[i as int]);
        assert(rest.drop_first() =~= all.subrange(i + 1, all.len() as int));
        if name_is(&fields[i].name, "intensity") || name_is(&fields[i].name, "i") {
            return Some(i);
        }
        i = i + 1;
    }
    assert(all.subrange(i as int, all.len() as int) =~= Seq::<PointFieldView>::empty());
    None
}

/// Decodes a `sensor_msgs/PointCloud2` message: the layout fields, then one
/// point per whole point step of the data. The x, y and z values are read at
/// the offsets of the fields named `x`, `y`, `z` (0, 4, 8 when absent); the
/// intensity is read at the offset of the first field named `intensity` or
/// `i`, as a float for data type 7 and as a byte for data type 2.
pub fn parse_pointcloud2_message(data: &[u8]) -> (r: Result<RosPointCloud2, RosParseError>)
    ensures
        match r {
            Ok(cloud) => cloud_decodes(data@) && {
                let l = cloud_layout(data@)->0;
                &&& cloud.stamp_sec == l.stamp_sec
                &&& cloud.stamp_nsec == l.stamp_nsec
                &&& cloud.height == l.height
                &&& cloud.width == l.width
                &&& cloud.fields@.map_values(|f: PointField| f@) == l.fields
                &&& cloud.points@ == cloud_points(data@, l)
            },
            Err(_) => !cloud_decodes(data@),
        },
{
    let (stamp_sec, stamp_nsec, p) = match parse_header(data) {
        Ok(h) => h,
        Err(e) => return Err(e),
    };
    if data.len() - p < 12 {
        return Err(RosParseError::UnexpectedEof);
    }
    let height = read_u32_le(data, p);
    let width = read_u32_le(data, p + 4);
    let num_fields = read_u32_le(data, p + 8);
    let (fields, r) = match parse_point_fields(data, p + 12, num_fields) {
        Ok(f) => f,
        Err(e) => return Err(e),
    };
    if data.len() - r < 13 {
        return Err(RosParseError::UnexpectedEof);
    }
    let point_step = read_u32_le(data, r + 1);
    let data_length = read_u32_le(data, r + 9);
    let start = r + 13;
    if data.len() - start <= data_length as usize {
        return Err(RosParseError::UnexpectedEof);
    }
    let ghost l = cloud_layout(data@)->0;
    assert(cloud_layout(data@) is Some);
    let ghost fv = fields@.map_values(|f: PointField| f@);
    assert(l.fields == fv);
    let num_points: u32 = if point_step > 0 {
        data_length / point_step
    } else {
        0
    };
    let x_offset = find_field_offset(&fields, "x", 0);
    let y_offset = find_field_offset(&fields, "y", 4);
    let z_offset = find_field_offset(&fields, "z", 8);
    let intensity_index = find_intensity_index(&fields);
    let intensity_off: u32 = match intensity_index {
        Some(k) => fields[k].offset,
        None => 12,
    };
    let len64 = data_length as u64;
    let mut points: Vec<RosPointBits> = Vec::new();
    let mut i: u32 = 0;
    let mut base: u64 = 0;
    proof {
        if point_step > 0 {
            assert((data_length / point_step) * point_step <= data_length) by (nonlinear_arith)
                requires
                    point_step > 0,
            ;
        }
    }
    while i < num_points
        invariant
            l == cloud_layout(data@)->0,
            l.fields == fields@.map_values(|f: PointField| f@),
            l.data_start == start,
            l.data_len == data_length,
            l.point_step == point_step,
            start + data_length + 1 <= data.len(),
            num_points == point_count(l),
            num_points * point_step <= data_length,
            x_offset == field_offset(l.fields, "x"@, 0),
            y_offset == field_offset(l.fields, "y"@, 4),
            z_offset == field_offset(l.fields, "z"@, 8),
            intensity_off == intensity_offset(l.fields),
            match intensity_index {
                Some(k) => k < fields@.len() && find_intensity_field(l.fields) == Some(
                    fields@[k as int]@,
                ),
                None => find_intensity_field(l.fields) is None,
            },
            len64 == data_length,
            i <= num_points,
            base == i * point_step,
            forall|j: int| 0 <= j < i ==> (#[trigger] point_at(data@, l, j * point_step)) is Some,
            points@ =~= Seq::new(i as nat, |j: int| point_at(data@, l, j * point_step)->0),
        decreases num_points - i,
    {
        proof {
            assert(base + point_step <= data_length) by (nonlinear_arith)
                requires
                    base == i * point_step,
                    i < num_points,
                    num_points * point_step <= data_length,
            ;
        }
        let at = start + base as usize;
        let bad_x = base + x_offset as u64 + 4 > len64;
        let bad_y = base + y_offset as u64 + 4 > len64;
        let bad_z = base + z_offset as u64 + 4 > len64;
        if bad_x || bad_y || bad_z {
            proof {
                assert(point_at(data@, l, i * point_step) is None);
            }
            return Err(RosParseError::UnexpectedEof);
        }
        let intensity = match intensity_index {
            None => RosIntensity::Zero,
            Some(k) => {
                let datatype = fields[k].datatype;
                if datatype == 7 {
                    if base + intensity_off as u64 + 4 > len64 {
                        proof {
                            assert(point_at(data@, l, i * point_step) is None);
                        }
                        return Err(RosParseError::UnexpectedEof);
                    }
                    RosIntensity::Float32(read_u32_le(data, at + intensity_off as usize))
                } else if datatype == 2 {
                    if base + intensity_off as u64 + 1 > len64 {
                        proof {
                            assert(point_at(data@, l, i * point_step) is None);
                        }
                        return Err(RosParseError::UnexpectedEof);
                    }
                    RosIntensity::Uint8(data[at + intensity_off as usize])
                } else {
                    RosIntensity::Zero
                }
            },
        };
        let point = RosPointBits {
            x: read_u32_le(data, at + x_offset as usize),
            y: read_u32_le(data, at + y_offset as usize),
            z: read_u32_le(data, at + z_offset as usize),
            intensity,
        };
        proof {
            assert(point_at(data@, l, i * point_step) == Some(point));
        }
        points.push(point);
        proof {
            assert((i + 1) * point_step == i * point_step + point_step) by (nonlinear_arith);
        }
        base = base + point_step as u64;
        i = i + 1;
    }
    proof {
        assert(points_readable(data@, l));
        assert(points@ =~= cloud_points(data@, l));
    }
    Ok(RosPointCloud2 { stamp_sec, stamp_nsec, height, width, fields, points })
}

} // verus!
