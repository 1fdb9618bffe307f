//! ROS2 message types and their CDR decoding.

use vstd::prelude::*;
use vstd::slice::slice_to_vec;
use vstd::array::{array_fill_for_copy_types, ArrayAdditionalExecFns};
use crate::byte_order::{
    le_u32_bytes, le_u32_value, le_u64_bytes, le_u64_value, lemma_le_u32_roundtrip,
    lemma_le_u64_roundtrip, read_le_u32, read_le_u64,
};
use vstd::utf8::{encode_utf8, encode_utf8_decode_utf8, encode_utf8_valid_utf8};
use crate::text::{has_substring, lossy_string, str_contains, lossy_text};

verus! {

/// ROS2 Time structure
#[derive(Debug, Clone, Copy, PartialEq, Eq, Structural)]
pub struct Time {
    pub sec: i32,
    pub nanosec: u32,
}

/// ROS2 std_msgs/Header
#[derive(Debug, Clone)]
pub struct Header {
    pub stamp: Time,
    pub frame_id: String,
}

pub struct HeaderView {
    pub stamp: Time,
    pub frame_id: Seq<char>,
}

impl View for Header {
    type V = HeaderView;

    open spec fn view(&self) -> HeaderView {
        HeaderView { stamp: self.stamp, frame_id: self.frame_id@ }
    }
}

/// ROS2 sensor_msgs/CompressedImage
#[derive(Debug, Clone)]
pub struct CompressedImage {
    pub header: Header,
    pub format: String,
    pub data: Vec<u8>,
}

pub struct CompressedImageView {
    pub header: HeaderView,
    pub format: Seq<char>,
    pub data: Seq<u8>,
}

impl View for CompressedImage {
    type V = CompressedImageView;

    open spec fn view(&self) -> CompressedImageView {
        CompressedImageView { header: self.header@, format: self.format@, data: self.data@ }
    }
}

/// ROS2 sensor_msgs/Image
#[derive(Debug, Clone)]
pub struct Image {
    pub header: Header,
    pub height: u32,
    pub width: u32,
    pub encoding: String,
    pub is_bigendian: u8,
    pub step: u32,
    pub data: Vec<u8>,
}

pub struct ImageView {
    pub header: HeaderView,
    pub height: u32,
    pub width: u32,
    pub encoding: Seq<char>,
    pub is_bigendian: u8,
    pub step: u32,
    pub data: Seq<u8>,
}

impl View for Image {
    type V = ImageView;

    open spec fn view(&self) -> ImageView {
        ImageView {
            header: self.header@,
            height: self.height,
            width: self.width,
            encoding: self.encoding@,
            is_bigendian: self.is_bigendian,
            step: self.step,
            data: self.data@,
        }
    }
}

/// Supported image message types
#[derive(Debug, Clone, Copy, PartialEq, Eq, Structural)]
pub enum ImageMessageType {
    Image,
    CompressedImage,
}

impl ImageMessageType {
    /// A schema name mentioning `CompressedImage` names compressed images; any
    /// other mentioning `Image` names raw images.
    pub fn from_schema_name(name: &str) -> (r: Option<Self>)
        ensures
            r == (if has_substring(name@, "CompressedImage"@) {
                Some(ImageMessageType::CompressedImage)
            } else if has_substring(name@, "Image"@) {
                Some(ImageMessageType::Image)
            } else {
                None
            }),
    {
        if str_contains(name, "CompressedImage") {
            Some(ImageMessageType::CompressedImage)
        } else if str_contains(name, "Image") {
            Some(ImageMessageType::Image)
        } else {
            None
        }
    }
}

/// Supported metadata message types
#[derive(Debug, Clone, Copy, PartialEq, Eq, Structural)]
pub enum MetadataMessageType {
    CameraInfo,
    TFMessage,
}

impl MetadataMessageType {
    /// A schema name mentioning `CameraInfo` names camera info; any other
    /// mentioning `TFMessage` names transforms.
    pub fn from_schema_name(name: &str) -> (r: Option<Self>)
        ensures
            r == (if has_substring(name@, "CameraInfo"@) {
                Some(MetadataMessageType::CameraInfo)
            } else if has_substring(name@, "TFMessage"@) {
                Some(MetadataMessageType::TFMessage)
            } else {
                None
            }),
    {
        if str_contains(name, "CameraInfo") {
            Some(MetadataMessageType::CameraInfo)
        } else if str_contains(name, "TFMessage") {
            Some(MetadataMessageType::TFMessage)
        } else {
            None
        }
    }
}

/// ROS2 sensor_msgs/RegionOfInterest
#[derive(Debug, Clone, Copy, PartialEq, Eq, Structural)]
pub struct RegionOfInterest {
    pub x_offset: u32,
    pub y_offset: u32,
    pub height: u32,
    pub width: u32,
    pub do_rectify: bool,
}

/// ROS2 sensor_msgs/CameraInfo. Each `float64` is held as its IEEE-754 bit
/// pattern (`f64::to_bits`).
#[derive(Debug, Clone)]
pub struct CameraInfo {
    pub header: Header,
    pub height: u32,
    pub width: u32,
    pub distortion_model: String,
    pub d: Vec<u64>,
    pub k: [u64; 9],
    pub r: [u64; 9],
    pub p: [u64; 12],
    pub binning_x: u32,
    pub binning_y: u32,
    pub roi: RegionOfInterest,
}

pub struct CameraInfoView {
    pub header: HeaderView,
    pub height: u32,
    pub width: u32,
    pub distortion_model: Seq<char>,
    pub d: Seq<u64>,
    pub k: Seq<u64>,
    pub r: Seq<u64>,
    pub p: Seq<u64>,
    pub binning_x: u32,
    pub binning_y: u32,
    pub roi: RegionOfInterest,
}

impl View for CameraInfo {
    type V = CameraInfoView;

    open spec fn view(&self) -> CameraInfoView {
        CameraInfoView {
            header: self.header@,
            height: self.height,
            width: self.width,
            distortion_model: self.distortion_model@,
            d: self.d@,
            k: self.k@,
            r: self.r@,
            p: self.p@,
            binning_x: self.binning_x,
            binning_y: self.binning_y,
            roi: self.roi,
        }
    }
}

/// ROS2 geometry_msgs/Vector3, each coordinate as its IEEE-754 bit pattern.
#[derive(Debug, Clone, Copy, PartialEq, Eq, Structural)]
pub struct Vector3 {
    pub x: u64,
    pub y: u64,
    pub z: u64,
}

/// ROS2 geometry_msgs/Quaternion, each component as its IEEE-754 bit pattern.
#[derive(Debug, Clone, Copy, PartialEq, Eq, Structural)]
pub struct Quaternion {
    pub x: u64,
    pub y: u64,
    pub z: u64,
    pub w: u64,
}

/// ROS2 geometry_msgs/Transform
#[derive(Debug, Clone, Copy, PartialEq, Eq, Structural)]
pub struct Transform {
    pub translation: Vector3,
    pub rotation: Quaternion,
}

/// ROS2 geometry_msgs/TransformStamped
#[derive(Debug, Clone)]
pub struct TransformStamped {
    pub header: Header,
    pub child_frame_id: String,
    pub transform: Transform,
}

pub struct TransformStampedView {
    pub header: HeaderView,
    pub child_frame_id: Seq<char>,
    pub transform: Transform,
}

impl View for TransformStamped {
    type V = TransformStampedView;

    open spec fn view(&self) -> TransformStampedView {
        TransformStampedView {
            header: self.header@,
            child_frame_id: self.child_frame_id@,
            transform: self.transform,
        }
    }
}

/// ROS2 tf2_msgs/TFMessage
#[derive(Debug, Clone)]
pub struct TFMessage {
    pub transforms: Vec<TransformStamped>,
}

pub open spec fn transforms_view(ts: Seq<TransformStamped>) -> Seq<TransformStampedView> {
    ts.map_values(|t: TransformStamped| t@)
}

impl View for TFMessage {
    type V = Seq<TransformStampedView>;

    open spec fn view(&self) -> Seq<TransformStampedView> {
        transforms_view(self.transforms@)
    }
}

/// Why a CDR message could not be decoded.
#[derive(Debug, Clone, Copy, PartialEq, Eq, Structural)]
pub enum CdrError {
    /// Fewer than the four bytes of the encapsulation header.
    TooShort,
    /// The message ends before a value it announces.
    UnexpectedEof,
}

// ---- The CDR layout, over the body that follows the encapsulation header ----

/// `pos` rounded up to a multiple of `alignment`.
pub open spec fn cdr_align(pos: int, alignment: int) -> int {
    if pos % alignment == 0 {
        pos
    } else {
        pos + alignment - pos % alignment
    }
}

pub open spec fn cdr_u8(b: Seq<u8>, pos: int) -> Option<(u8, int)> {
    if 0 <= pos && pos + 1 <= b.len() {
        Some((b[pos], pos + 1))
    } else {
        None
    }
}

/// Little-endian `u32` at `pos` (no alignment).
pub open spec fn cdr_u32(b: Seq<u8>, pos: int) -> Option<(u32, int)> {
    if 0 <= pos && pos + 4 <= b.len() {
        Some((le_u32_value(b.subrange(pos, pos + 4)) as u32, pos + 4))
    } else {
        None
    }
}

/// Little-endian `u64` at `pos` (no alignment).
pub open spec fn cdr_u64(b: Seq<u8>, pos: int) -> Option<(u64, int)> {
    if 0 <= pos && pos + 8 <= b.len() {
        Some((le_u64_value(b.subrange(pos, pos + 8)) as u64, pos + 8))
    } else {
        None
    }
}

/// `n` consecutive little-endian `u64`s at `pos`.
pub open spec fn cdr_u64s(b: Seq<u8>, pos: int, n: nat) -> Option<(Seq<u64>, int)> {
    if 0 <= pos && pos + 8 * n <= b.len() {
        Some(
            (
                Seq::new(n, |i: int| le_u64_value(b.subrange(pos + 8 * i, pos + 8 * i + 8)) as u64),
                pos + 8 * n,
            ),
        )
    } else {
        None
    }
}

/// A string: after aligning to 4, a `u32` length and that many bytes; one
/// trailing NUL is dropped, and the rest decoded as lossy UTF-8.
pub open spec fn cdr_string(b: Seq<u8>, pos: int) -> Option<(Seq<char>, int)> {
    match cdr_u32(b, cdr_align(pos, 4)) {
        None => None,
        Some((len, p)) => {
            if len == 0 {
                Some((Seq::empty(), p))
            } else if p + len > b.len() {
                None
            } else {
                let raw = b.subrange(p, p + len);
                let text = if raw.last() == 0 {
                    raw.drop_last()
                } else {
                    raw
                };
                Some((lossy_text(text), p + len))
            }
        },
    }
}

/// A byte sequence: after aligning to 4, a `u32` length and that many bytes.
pub open spec fn cdr_byte_array(b: Seq<u8>, pos: int) -> Option<(Seq<u8>, int)> {
    match cdr_u32(b, cdr_align(pos, 4)) {
        None => None,
        Some((len, p)) => {
            if p + len > b.len() {
                None
            } else {
                Some((b.subrange(p, p + len), p + len))
            }
        },
    }
}

/// A std_msgs/Header: `i32` seconds and `u32` nanoseconds, unaligned, then the
/// frame id.
pub open spec fn cdr_header(b: Seq<u8>, pos: int) -> Option<(HeaderView, int)> {
    match cdr_u32(b, pos) {
        None => None,
        Some((sec, p1)) => match cdr_u32(b, p1) {
            None => None,
            Some((nanosec, p2)) => match cdr_string(b, p2) {
                None => None,
                Some((frame_id, p3)) => Some(
                    (
                        HeaderView {
                            stamp: Time { sec: sec as i32, nanosec },
                            frame_id,
                        },
                        p3,
                    ),
                ),
            },
        },
    }
}

/// The body of a CDR message: everything after its four-byte encapsulation
/// header.
pub open spec fn cdr_body(data: Seq<u8>) -> Seq<u8> {
    data.subrange(4, data.len() as int)
}

/// The decoded sensor_msgs/Image.
pub open spec fn spec_parse_image(data: Seq<u8>) -> Result<ImageView, CdrError> {
    if data.len() < 4 {
        Err(CdrError::TooShort)
    } else {
        let b = cdr_body(data);
        match cdr_header(b, 0) {
            None => Err(CdrError::UnexpectedEof),
            Some((header, p1)) => match cdr_u32(b, cdr_align(p1, 4)) {
                None => Err(CdrError::UnexpectedEof),
                Some((height, p2)) => match cdr_u32(b, p2) {
                    None => Err(CdrError::UnexpectedEof),
                    Some((width, p3)) => match cdr_string(b, p3) {
                        None => Err(CdrError::UnexpectedEof),
                        Some((encoding, p4)) => match cdr_u8(b, p4) {
                            None => Err(CdrError::UnexpectedEof),
                            Some((is_bigendian, p5)) => match cdr_u32(b, cdr_align(p5, 4)) {
                                None => Err(CdrError::UnexpectedEof),
                                Some((step, p6)) => match cdr_byte_array(b, p6) {
                                    None => Err(CdrError::UnexpectedEof),
                                    Some((pixels, _)) => Ok(
                                        ImageView {
                                            header,
                                            height,
                                            width,
                                            encoding,
                                            is_bigendian,
                                            step,
                                            data: pixels,
                                        },
                                    ),
                                },
                            },
                        },
                    },
                },
            },
        }
    }
}

/// The decoded sensor_msgs/CompressedImage.
pub open spec fn spec_parse_compressed_image(data: Seq<u8>) -> Result<CompressedImageView, CdrError> {
    if data.len() < 4 {
        Err(CdrError::TooShort)
    } else {
        let b = cdr_body(data);
        match cdr_header(b, 0) {
            None => Err(CdrError::UnexpectedEof),
            Some((header, p1)) => match cdr_string(b, p1) {
                None => Err(CdrError::UnexpectedEof),
                Some((format, p2)) => match cdr_byte_array(b, p2) {
                    None => Err(CdrError::UnexpectedEof),
                    Some((pixels, _)) => Ok(
                        CompressedImageView { header, format, data: pixels },
                    ),
                },
            },
        }
    }
}

/// A `float64` sequence: after aligning to 4, a `u32` count; unless the
/// count is zero, after aligning to 8, that many values.
pub open spec fn cdr_f64_sequence(b: Seq<u8>, pos: int) -> Option<(Seq<u64>, int)> {
    match cdr_u32(b, cdr_align(pos, 4)) {
        None => None,
        Some((len, p)) => {
            if len == 0 {
                Some((Seq::empty(), p))
            } else {
                cdr_u64s(b, cdr_align(p, 8), len as nat)
            }
        },
    }
}

/// A fixed-size `float64` array: after aligning to 8, `n` values.
pub open spec fn cdr_f64_array(b: Seq<u8>, pos: int, n: nat) -> Option<(Seq<u64>, int)> {
    cdr_u64s(b, cdr_align(pos, 8), n)
}

/// The decoded sensor_msgs/CameraInfo.
pub open spec fn spec_parse_camera_info(data: Seq<u8>) -> Result<CameraInfoView, CdrError> {
    if data.len() < 4 {
        Err(CdrError::TooShort)
    } else {
        let b = cdr_body(data);
        match cdr_header(b, 0) {
            None => Err(CdrError::UnexpectedEof),
            Some((header, p1)) => match cdr_u32(b, cdr_align(p1, 4)) {
                None => Err(CdrError::UnexpectedEof),
                Some((height, p2)) => match cdr_u32(b, p2) {
                    None => Err(CdrError::UnexpectedEof),
                    Some((width, p3)) => match cdr_string(b, p3) {
                        None => Err(CdrError::UnexpectedEof),
                        Some((distortion_model, p4)) => match cdr_f64_sequence(b, p4) {
                            None => Err(CdrError::UnexpectedEof),
                            Some((d, p5)) => match cdr_f64_array(b, p5, 9) {
                                None => Err(CdrError::UnexpectedEof),
                                Some((k, p6)) => match cdr_f64_array(b, p6, 9) {
                                    None => Err(CdrError::UnexpectedEof),
                                    Some((r, p7)) => match cdr_f64_array(b, p7, 12) {
                                        None => Err(CdrError::UnexpectedEof),
                                        Some((p, p8)) => spec_camera_info_tail(
                                            b,
                                            cdr_align(p8, 4),
                                            header,
                                            height,
                                            width,
                                            distortion_model,
                                            d,
                                            k,
                                            r,
                                            p,
                                        ),
                                    },
                                },
                            },
                        },
                    },
                },
            },
        }
    }
}

/// The binning and region of interest that end a CameraInfo, at `pos`.
pub open spec fn spec_camera_info_tail(
    b: Seq<u8>,
    pos: int,
    header: HeaderView,
    height: u32,
    width: u32,
    distortion_model: Seq<char>,
    d: Seq<u64>,
    k: Seq<u64>,
    r: Seq<u64>,
    p: Seq<u64>,
) -> Result<CameraInfoView, CdrError> {
    match cdr_u32(b, pos) {
        None => Err(CdrError::UnexpectedEof),
        Some((binning_x, q1)) => match cdr_u32(b, q1) {
            None => Err(CdrError::UnexpectedEof),
            Some((binning_y, q2)) => match cdr_u32(b, q2) {
                None => Err(CdrError::UnexpectedEof),
                Some((x_offset, q3)) => match cdr_u32(b, q3) {
                    None => Err(CdrError::UnexpectedEof),
                    Some((y_offset, q4)) => match cdr_u32(b, q4) {
                        None => Err(CdrError::UnexpectedEof),
                        Some((roi_height, q5)) => match cdr_u32(b, q5) {
                            None => Err(CdrError::UnexpectedEof),
                            Some((roi_width, q6)) => match cdr_u8(b, q6) {
                                None => Err(CdrError::UnexpectedEof),
                                Some((rectify, _)) => Ok(
                                    CameraInfoView {
                                        header,
                                        height,
                                        width,
                                        distortion_model,
                                        d,
                                        k,
                                        r,
                                        p,
                                        binning_x,
                                        binning_y,
                                        roi: RegionOfInterest {
                                            x_offset,
                                            y_offset,
                                            height: roi_height,
                                            width: roi_width,
                                            do_rectify: rectify != 0,
                                        },
                                    },
                                ),
                            },
                        },
                    },
                },
            },
        },
    }
}

/// A geometry_msgs/Vector3: after aligning to 8, three values.
pub open spec fn cdr_vector3(b: Seq<u8>, pos: int) -> Option<(Vector3, int)> {
    match cdr_u64s(b, cdr_align(pos, 8), 3) {
        None => None,
        Some((v, p)) => Some((Vector3 { x: v[0], y: v[1], z: v[2] }, p)),
    }
}

/// A geometry_msgs/Quaternion: after aligning to 8, four values.
pub open spec fn cdr_quaternion(b: Seq<u8>, pos: int) -> Option<(Quaternion, int)> {
    match cdr_u64s(b, cdr_align(pos, 8), 4) {
        None => None,
        Some((v, p)) => Some((Quaternion { x: v[0], y: v[1], z: v[2], w: v[3] }, p)),
    }
}

/// A geometry_msgs/TransformStamped: header, child frame id, translation and
/// rotation.
pub open spec fn cdr_transform_stamped(b: Seq<u8>, pos: int) -> Option<(TransformStampedView, int)> {
    match cdr_header(b, pos) {
        None => None,
        Some((header, p1)) => match cdr_string(b, p1) {
            None => None,
            Some((child_frame_id, p2)) => match cdr_vector3(b, p2) {
                None => None,
                Some((translation, p3)) => match cdr_quaternion(b, p3) {
                    None => None,
                    Some((rotation, p4)) => Some(
                        (
                            TransformStampedView {
                                header,
                                child_frame_id,
                                transform: Transform { translation, rotation },
                            },
                            p4,
                        ),
                    ),
                },
            },
        },
    }
}

/// `n` consecutive TransformStamped values from `pos`.
pub open spec fn cdr_transforms(b: Seq<u8>, pos: int, n: nat) -> Option<
    (Seq<TransformStampedView>, int),
>
    decreases n,
{
    if n == 0 {
        Some((Seq::empty(), pos))
    } else {
        match cdr_transforms(b, pos, (n - 1) as nat) {
            None => None,
            Some((ts, p)) => match cdr_transform_stamped(b, p) {
                None => None,
                Some((t, p2)) => Some((ts.push(t), p2)),
            },
        }
    }
}

/// Once one transform fails to decode, so does every longer run of them.
proof fn lemma_transforms_stop(b: Seq<u8>, start: int, i: nat, n: nat)
    requires
        i < n,
        cdr_transforms(b, start, i) matches Some((_, p)) && cdr_transform_stamped(b, p) is None,
    ensures
        cdr_transforms(b, start, n) is None,
    decreases n,
{
    if n > i + 1 {
        lemma_transforms_stop(b, start, i, (n - 1) as nat);
    }
}

/// The decoded tf2_msgs/TFMessage: a `u32` count, then that many transforms.
pub open spec fn spec_parse_tf_message(data: Seq<u8>) -> Result<Seq<TransformStampedView>, CdrError> {
    if data.len() < 4 {
        Err(CdrError::TooShort)
    } else {
        let b = cdr_body(data);
        match cdr_u32(b, 0) {
            None => Err(CdrError::UnexpectedEof),
            Some((count, p)) => match cdr_transforms(b, p, count as nat) {
                None => Err(CdrError::UnexpectedEof),
                Some((ts, _)) => Ok(ts),
            },
        }
    }
}

// ---- Writing, and reading back what was written ----

/// Zero bytes that pad position `pos` up to a multiple of `alignment`.
pub open spec fn cdr_padding(pos: int, alignment: int) -> Seq<u8> {
    Seq::new(((alignment - pos % alignment) % alignment) as nat, |i: int| 0u8)
}

/// A string written at `pos`: padding to 4, its byte length counting a
/// terminating NUL as a little-endian `u32`, its UTF-8 bytes, and the NUL.
pub open spec fn cdr_string_bytes(pos: int, s: Seq<char>) -> Seq<u8> {
    let t = encode_utf8(s);
    cdr_padding(pos, 4) + le_u32_bytes((t.len() + 1) as u32) + t + seq![0u8]
}

/// Values written at `pos`: padding to 8, then each value as a
/// little-endian `u64`, in order.
pub open spec fn cdr_u64s_bytes(pos: int, v: Seq<u64>) -> Seq<u8> {
    cdr_padding(pos, 8) + Seq::new(8 * v.len(), |j: int| le_u64_bytes(v[j / 8])[j % 8])
}

/// A TransformStamped written at `pos`: seconds and nanoseconds as
/// little-endian `u32`s, the frame id and the child frame id as strings,
/// the translation's x, y and z, and the rotation's x, y, z and w.
pub open spec fn cdr_transform_bytes(pos: int, t: TransformStampedView) -> Seq<u8> {
    let stamp = le_u32_bytes(t.header.stamp.sec as u32) + le_u32_bytes(t.header.stamp.nanosec);
    let p1 = pos + 8;
    let frame = cdr_string_bytes(p1, t.header.frame_id);
    let p2 = p1 + frame.len();
    let child = cdr_string_bytes(p2, t.child_frame_id);
    let p3 = p2 + child.len();
    let tr = t.transform.translation;
    let translation = cdr_u64s_bytes(p3, seq![tr.x, tr.y, tr.z]);
    let p4 = p3 + translation.len();
    let q = t.transform.rotation;
    let rotation = cdr_u64s_bytes(p4, seq![q.x, q.y, q.z, q.w]);
    stamp + frame + child + translation + rotation
}

/// TransformStamped values written one after another from `pos`.
pub open spec fn cdr_transforms_bytes(pos: int, ts: Seq<TransformStampedView>) -> Seq<u8>
    decreases ts.len(),
{
    if ts.len() == 0 {
        Seq::empty()
    } else {
        let prev = cdr_transforms_bytes(pos, ts.drop_last());
        prev + cdr_transform_bytes(pos + prev.len(), ts.last())
    }
}

/// A tf2_msgs/TFMessage as ROS2 writes it: the little-endian CDR
/// encapsulation header, the number of transforms as a `u32`, then the
/// transforms (positions counted from the end of the header).
pub open spec fn tf_message_bytes(ts: Seq<TransformStampedView>) -> Seq<u8> {
    seq![0u8, 1u8, 0u8, 0u8] + le_u32_bytes(ts.len() as u32) + cdr_transforms_bytes(4, ts)
}

/// The strings of a transform are short enough for their `u32` lengths.
pub open spec fn transform_strings_fit(t: TransformStampedView) -> bool {
    &&& encode_utf8(t.header.frame_id).len() + 1 <= u32::MAX
    &&& encode_utf8(t.child_frame_id).len() + 1 <= u32::MAX
}

/// `b` holds `piece` from `pos` on.
pub open spec fn holds_at(b: Seq<u8>, pos: int, piece: Seq<u8>) -> bool {
    &&& 0 <= pos
    &&& pos + piece.len() <= b.len()
    &&& b.subrange(pos, pos + piece.len()) == piece
}

/// A piece held in `b` holds each of its parts.
proof fn lemma_holds_part(b: Seq<u8>, pos: int, piece: Seq<u8>, start: int, end: int)
    requires
        holds_at(b, pos, piece),
        0 <= start <= end <= piece.len(),
    ensures
        holds_at(b, pos + start, piece.subrange(start, end)),
{
    assert(b.subrange(pos + start, pos + end) =~= piece.subrange(start, end)) by {
        assert forall|i: int| 0 <= i < end - start implies b.subrange(pos + start, pos + end)[i]
            == piece.subrange(start, end)[i] by {
            assert(b.subrange(pos, pos + piece.len())[start + i] == piece[start + i]);
        }
    }
}

/// Two pieces held one after the other in `b` are each held.
proof fn lemma_holds_split(b: Seq<u8>, pos: int, x: Seq<u8>, y: Seq<u8>)
    requires
        holds_at(b, pos, x + y),
    ensures
        holds_at(b, pos, x),
        holds_at(b, pos + x.len(), y),
{
    lemma_holds_part(b, pos, x + y, 0, x.len() as int);
    lemma_holds_part(b, pos, x + y, x.len() as int, (x + y).len() as int);
    assert((x + y).subrange(0, x.len() as int) =~= x);
    assert((x + y).subrange(x.len() as int, (x + y).len() as int) =~= y);
}

/// Padding written at `pos` ends where reading aligns `pos`.
proof fn lemma_padding_aligns(pos: int, alignment: int)
    requires
        0 <= pos,
        alignment == 4 || alignment == 8,
    ensures
        cdr_align(pos, alignment) == pos + cdr_padding(pos, alignment).len(),
{
}

proof fn lemma_read_u32_at(b: Seq<u8>, pos: int, n: u32)
    requires
        holds_at(b, pos, le_u32_bytes(n)),
    ensures
        cdr_u32(b, pos) == Some((n, pos + 4)),
{
    lemma_le_u32_roundtrip(n);
}

/// A string written at `pos` reads back as that string.
proof fn lemma_read_string(b: Seq<u8>, pos: int, s: Seq<char>)
    requires
        holds_at(b, pos, cdr_string_bytes(pos, s)),
        encode_utf8(s).len() + 1 <= u32::MAX,
    ensures
        cdr_string(b, pos) == Some((s, pos + cdr_string_bytes(pos, s).len())),
{
    broadcast use encode_utf8_valid_utf8, encode_utf8_decode_utf8;

    let t = encode_utf8(s);
    let pad = cdr_padding(pos, 4);
    let whole = cdr_string_bytes(pos, s);
    let n = (t.len() + 1) as u32;
    lemma_padding_aligns(pos, 4);
    lemma_le_u32_roundtrip(n);
    let p = pos + pad.len();
    assert(whole.subrange(pad.len() as int, pad.len() as int + 4) =~= le_u32_bytes(n));
    lemma_holds_part(b, pos, whole, pad.len() as int, pad.len() as int + 4);
    lemma_read_u32_at(b, p, n);
    assert(whole.subrange(pad.len() as int + 4, whole.len() as int) =~= t + seq![0u8]);
    lemma_holds_part(b, pos, whole, pad.len() as int + 4, whole.len() as int);
    let raw = b.subrange(p + 4, p + 4 + n);
    assert(raw =~= t + seq![0u8]);
    assert(raw.drop_last() =~= t);
}

/// Values written at `pos` read back, after aligning to 8, as those values.
proof fn lemma_read_u64s(b: Seq<u8>, pos: int, v: Seq<u64>)
    requires
        holds_at(b, pos, cdr_u64s_bytes(pos, v)),
    ensures
        cdr_u64s(b, cdr_align(pos, 8), v.len()) == Some((v, pos + cdr_u64s_bytes(pos, v).len())),
{
    let pad = cdr_padding(pos, 8);
    let whole = cdr_u64s_bytes(pos, v);
    lemma_padding_aligns(pos, 8);
    let p = pos + pad.len();
    let vals = Seq::new(8 * v.len(), |j: int| le_u64_bytes(v[j / 8])[j % 8]);
    assert(whole.subrange(pad.len() as int, whole.len() as int) =~= vals);
    lemma_holds_part(b, pos, whole, pad.len() as int, whole.len() as int);
    let got = Seq::new(v.len(), |i: int| le_u64_value(b.subrange(p + 8 * i, p + 8 * i + 8)) as u64);
    assert forall|i: int| 0 <= i < v.len() implies #[trigger] got[i] == v[i] by {
        lemma_le_u64_roundtrip(v[i]);
        assert(0 <= 8 * i && 8 * i + 8 <= 8 * v.len()) by (nonlinear_arith)
            requires
                0 <= i < v.len(),
        ;
        assert(b.subrange(p + 8 * i, p + 8 * i + 8) =~= le_u64_bytes(v[i])) by {
            assert forall|k: int| 0 <= k < 8 implies b.subrange(p + 8 * i, p + 8 * i + 8)[k]
                == le_u64_bytes(v[i])[k] by {
                assert((8 * i + k) / 8 == i && (8 * i + k) % 8 == k) by (nonlinear_arith)
                    requires
                        0 <= k < 8,
                ;
                assert(8 * i + k < 8 * v.len()) by (nonlinear_arith)
                    requires
                        0 <= k < 8,
                        0 <= i < v.len(),
                ;
                assert(b.subrange(p, p + vals.len())[8 * i + k] == vals[8 * i + k]);
            }
        }
    }
    assert(got =~= v);
}

/// A TransformStamped written at `pos` reads back as that transform.
proof fn lemma_read_transform(b: Seq<u8>, pos: int, t: TransformStampedView)
    requires
        holds_at(b, pos, cdr_transform_bytes(pos, t)),
        transform_strings_fit(t),
    ensures
        cdr_transform_stamped(b, pos) == Some((t, pos + cdr_transform_bytes(pos, t).len())),
{
    let whole = cdr_transform_bytes(pos, t);
    let sec = t.header.stamp.sec;
    let stamp = le_u32_bytes(sec as u32) + le_u32_bytes(t.header.stamp.nanosec);
    let p1 = pos + 8;
    let frame = cdr_string_bytes(p1, t.header.frame_id);
    let p2 = p1 + frame.len();
    let child = cdr_string_bytes(p2, t.child_frame_id);
    let p3 = p2 + child.len();
    let tr = t.transform.translation;
    let translation = cdr_u64s_bytes(p3, seq![tr.x, tr.y, tr.z]);
    let p4 = p3 + translation.len();
    let q = t.transform.rotation;
    let rotation = cdr_u64s_bytes(p4, seq![q.x, q.y, q.z, q.w]);
    let e = p4 + rotation.len();
    assert(whole == stamp + frame + child + translation + rotation);
    // Each part sits where the one before it ends.
    assert(whole.subrange(0, 4) =~= le_u32_bytes(sec as u32));
    lemma_holds_part(b, pos, whole, 0, 4);
    assert(whole.subrange(4, 8) =~= le_u32_bytes(t.header.stamp.nanosec));
    lemma_holds_part(b, pos, whole, 4, 8);
    assert(whole.subrange(8, p2 - pos) =~= frame);
    lemma_holds_part(b, pos, whole, 8, p2 - pos);
    assert(whole.subrange(p2 - pos, p3 - pos) =~= child);
    lemma_holds_part(b, pos, whole, p2 - pos, p3 - pos);
    assert(whole.subrange(p3 - pos, p4 - pos) =~= translation);
    lemma_holds_part(b, pos, whole, p3 - pos, p4 - pos);
    assert(whole.subrange(p4 - pos, e - pos) =~= rotation);
    lemma_holds_part(b, pos, whole, p4 - pos, e - pos);
    lemma_read_u32_at(b, pos, sec as u32);
    lemma_read_u32_at(b, pos + 4, t.header.stamp.nanosec);
    assert(((sec as u32) as i32) == sec) by (bit_vector);
    lemma_read_string(b, p1, t.header.frame_id);
    lemma_read_string(b, p2, t.child_frame_id);
    lemma_read_u64s(b, p3, seq![tr.x, tr.y, tr.z]);
    lemma_read_u64s(b, p4, seq![q.x, q.y, q.z, q.w]);
}

/// TransformStamped values written one after another from `pos` read back
/// as those values.
#[verifier::spinoff_prover]
proof fn lemma_read_transforms(b: Seq<u8>, pos: int, ts: Seq<TransformStampedView>)
    requires
        holds_at(b, pos, cdr_transforms_bytes(pos, ts)),
        forall|i: int| 0 <= i < ts.len() ==> transform_strings_fit(#[trigger] ts[i]),
    ensures
        cdr_transforms(b, pos, ts.len()) == Some((ts, pos + cdr_transforms_bytes(pos, ts).len())),
    decreases ts.len(),
{
    if ts.len() > 0 {
        let init = ts.drop_last();
        let prev = cdr_transforms_bytes(pos, init);
        let whole = cdr_transforms_bytes(pos, ts);
        let last = cdr_transform_bytes(pos + prev.len(), ts.last());
        assert(whole == prev + last);
        assert(whole.subrange(0, prev.len() as int) =~= prev);
        lemma_holds_part(b, pos, whole, 0, prev.len() as int);
        assert forall|i: int| 0 <= i < init.len() implies transform_strings_fit(#[trigger] init[i]) by {
            assert(init[i] == ts[i]);
        }
        lemma_read_transforms(b, pos, init);
        assert(whole.subrange(prev.len() as int, whole.len() as int) =~= last);
        lemma_holds_part(b, pos, whole, prev.len() as int, whole.len() as int);
        assert(transform_strings_fit(ts[ts.len() - 1]));
        lemma_read_transform(b, pos + prev.len(), ts.last());
        assert(init.push(ts.last()) =~= ts);
    }
}

/// Decoding is the inverse of encoding: a TFMessage written as ROS2 writes
/// it (`tf_message_bytes`) decodes to exactly its transforms, each with its
/// stamp, frame ids, translation (x, y, z) and rotation (x, y, z, w).
pub proof fn law_tf_message_roundtrip(ts: Seq<TransformStampedView>)
    requires
        ts.len() <= u32::MAX,
        forall|i: int| 0 <= i < ts.len() ==> transform_strings_fit(#[trigger] ts[i]),
    ensures
        spec_parse_tf_message(tf_message_bytes(ts)) == Ok::<Seq<TransformStampedView>, CdrError>(ts),
{
    let data = tf_message_bytes(ts);
    let t = cdr_transforms_bytes(4, ts);
    let b = cdr_body(data);
    assert(b =~= le_u32_bytes(ts.len() as u32) + t);
    assert(b.subrange(0, 4) =~= le_u32_bytes(ts.len() as u32));
    lemma_read_u32_at(b, 0, ts.len() as u32);
    assert(b.subrange(4, 4 + t.len() as int) =~= t);
    lemma_read_transforms(b, 4, ts);
}

/// A std_msgs/Header written at `pos`: seconds and nanoseconds as
/// little-endian `u32`s, then the frame id as a string.
pub open spec fn cdr_header_bytes(pos: int, h: HeaderView) -> Seq<u8> {
    le_u32_bytes(h.stamp.sec as u32) + le_u32_bytes(h.stamp.nanosec) + cdr_string_bytes(
        pos + 8,
        h.frame_id,
    )
}

/// A byte sequence written at `pos`: padding to 4, its length as a
/// little-endian `u32`, then its bytes.
pub open spec fn cdr_byte_array_bytes(pos: int, d: Seq<u8>) -> Seq<u8> {
    cdr_padding(pos, 4) + le_u32_bytes(d.len() as u32) + d
}

/// A sensor_msgs/Image as ROS2 writes it: the encapsulation header, then
/// (positions counted from its end) the header, height and width, the
/// encoding, the big-endian flag, the row step and the pixel bytes.
pub open spec fn image_bytes(img: ImageView) -> Seq<u8> {
    seq![0u8, 1u8, 0u8, 0u8] + image_body_bytes(img)
}

/// A sensor_msgs/CompressedImage as ROS2 writes it: the encapsulation
/// header, then the header, the format and the image bytes.
pub open spec fn compressed_image_bytes(img: CompressedImageView) -> Seq<u8> {
    let h = cdr_header_bytes(0, img.header);
    let p1 = h.len() as int;
    let format = cdr_string_bytes(p1, img.format);
    let p2 = p1 + format.len();
    seq![0u8, 1u8, 0u8, 0u8] + h + format + cdr_byte_array_bytes(p2, img.data)
}

/// A header written at `pos` reads back as that header.
proof fn lemma_read_header(b: Seq<u8>, pos: int, h: HeaderView)
    requires
        holds_at(b, pos, cdr_header_bytes(pos, h)),
        encode_utf8(h.frame_id).len() + 1 <= u32::MAX,
    ensures
        cdr_header(b, pos) == Some((h, pos + cdr_header_bytes(pos, h).len())),
{
    let whole = cdr_header_bytes(pos, h);
    let sec = h.stamp.sec;
    assert(whole.subrange(0, 4) =~= le_u32_bytes(sec as u32));
    lemma_holds_part(b, pos, whole, 0, 4);
    assert(whole.subrange(4, 8) =~= le_u32_bytes(h.stamp.nanosec));
    lemma_holds_part(b, pos, whole, 4, 8);
    assert(whole.subrange(8, whole.len() as int) =~= cdr_string_bytes(pos + 8, h.frame_id));
    lemma_holds_part(b, pos, whole, 8, whole.len() as int);
    lemma_read_u32_at(b, pos, sec as u32);
    lemma_read_u32_at(b, pos + 4, h.stamp.nanosec);
    assert(((sec as u32) as i32) == sec) by (bit_vector);
    lemma_read_string(b, pos + 8, h.frame_id);
}

/// A byte sequence written at `pos` reads back as those bytes.
proof fn lemma_read_byte_array(b: Seq<u8>, pos: int, d: Seq<u8>)
    requires
        holds_at(b, pos, cdr_byte_array_bytes(pos, d)),
        d.len() <= u32::MAX,
    ensures
        cdr_byte_array(b, pos) == Some((d, pos + cdr_byte_array_bytes(pos, d).len())),
{
    let whole = cdr_byte_array_bytes(pos, d);
    let pad = cdr_padding(pos, 4);
    lemma_padding_aligns(pos, 4);
    let p = pos + pad.len();
    assert(whole.subrange(pad.len() as int, pad.len() as int + 4) =~= le_u32_bytes(d.len() as u32));
    lemma_holds_part(b, pos, whole, pad.len() as int, pad.len() as int + 4);
    lemma_read_u32_at(b, p, d.len() as u32);
    assert(whole.subrange(pad.len() as int + 4, whole.len() as int) =~= d);
    lemma_holds_part(b, pos, whole, pad.len() as int + 4, whole.len() as int);
}

/// A `u32` written at `pos` after padding to 4 reads back, after aligning.
proof fn lemma_read_aligned_u32(b: Seq<u8>, pos: int, n: u32)
    requires
        holds_at(b, pos, cdr_padding(pos, 4) + le_u32_bytes(n)),
    ensures
        cdr_u32(b, cdr_align(pos, 4)) == Some((n, pos + cdr_padding(pos, 4).len() + 4)),
{
    let pad = cdr_padding(pos, 4);
    let whole = pad + le_u32_bytes(n);
    lemma_padding_aligns(pos, 4);
    lemma_le_u32_roundtrip(n);
    assert(whole.subrange(pad.len() as int, whole.len() as int) =~= le_u32_bytes(n));
    lemma_holds_part(b, pos, whole, pad.len() as int, whole.len() as int);
    lemma_read_u32_at(b, pos + pad.len(), n);
}

/// The body of an Image as ROS2 writes it (after the encapsulation header).
pub open spec fn image_body_bytes(img: ImageView) -> Seq<u8> {
    let h = cdr_header_bytes(0, img.header);
    let p1 = h.len() as int;
    let height = cdr_padding(p1, 4) + le_u32_bytes(img.height);
    let p2 = p1 + height.len();
    let width = le_u32_bytes(img.width);
    let p3 = p2 + 4;
    let encoding = cdr_string_bytes(p3, img.encoding);
    let p4 = p3 + encoding.len();
    let p5 = p4 + 1;
    let step = cdr_padding(p5, 4) + le_u32_bytes(img.step);
    let p6 = p5 + step.len();
    h + height + width + encoding + seq![img.is_bigendian] + step + cdr_byte_array_bytes(
        p6,
        img.data,
    )
}

/// The fields of an Image's body are held where they were written.
#[verifier::spinoff_prover]
proof fn lemma_image_parts(b: Seq<u8>, img: ImageView)
    requires
        b == image_body_bytes(img),
    ensures
        ({
            let h = cdr_header_bytes(0, img.header);
            let p1 = h.len() as int;
            let height = cdr_padding(p1, 4) + le_u32_bytes(img.height);
            let p2 = p1 + height.len();
            let p3 = p2 + 4;
            let encoding = cdr_string_bytes(p3, img.encoding);
            let p4 = p3 + encoding.len();
            let p5 = p4 + 1;
            let step = cdr_padding(p5, 4) + le_u32_bytes(img.step);
            let p6 = p5 + step.len();
            &&& holds_at(b, 0, h)
            &&& holds_at(b, p1, height)
            &&& holds_at(b, p2, le_u32_bytes(img.width))
            &&& holds_at(b, p3, encoding)
            &&& holds_at(b, p4, seq![img.is_bigendian])
            &&& holds_at(b, p5, step)
            &&& holds_at(b, p6, cdr_byte_array_bytes(p6, img.data))
        }),
{
    let h = cdr_header_bytes(0, img.header);
    let p1 = h.len() as int;
    let height = cdr_padding(p1, 4) + le_u32_bytes(img.height);
    let p2 = p1 + height.len();
    let width = le_u32_bytes(img.width);
    let p3 = p2 + 4;
    let encoding = cdr_string_bytes(p3, img.encoding);
    let p4 = p3 + encoding.len();
    let p5 = p4 + 1;
    let step = cdr_padding(p5, 4) + le_u32_bytes(img.step);
    let p6 = p5 + step.len();
    let arr = cdr_byte_array_bytes(p6, img.data);
    let x1 = h + height;
    let x2 = x1 + width;
    let x3 = x2 + encoding;
    let x4 = x3 + seq![img.is_bigendian];
    let x5 = x4 + step;
    assert(b == x5 + arr);
    assert(b.subrange(0, b.len() as int) =~= b);
    lemma_holds_split(b, 0, x5, arr);
    lemma_holds_split(b, 0, x4, step);
    lemma_holds_split(b, 0, x3, seq![img.is_bigendian]);
    lemma_holds_split(b, 0, x2, encoding);
    lemma_holds_split(b, 0, x1, width);
    lemma_holds_split(b, 0, h, height);
}

/// Each field of an Image's body reads back where it was written.
#[verifier::spinoff_prover]
proof fn lemma_image_fields(b: Seq<u8>, img: ImageView)
    requires
        ({
            let h = cdr_header_bytes(0, img.header);
            let p1 = h.len() as int;
            let height = cdr_padding(p1, 4) + le_u32_bytes(img.height);
            let p2 = p1 + height.len();
            let p3 = p2 + 4;
            let encoding = cdr_string_bytes(p3, img.encoding);
            let p4 = p3 + encoding.len();
            let p5 = p4 + 1;
            let step = cdr_padding(p5, 4) + le_u32_bytes(img.step);
            let p6 = p5 + step.len();
            &&& holds_at(b, 0, h)
            &&& holds_at(b, p1, height)
            &&& holds_at(b, p2, le_u32_bytes(img.width))
            &&& holds_at(b, p3, encoding)
            &&& holds_at(b, p4, seq![img.is_bigendian])
            &&& holds_at(b, p5, step)
            &&& holds_at(b, p6, cdr_byte_array_bytes(p6, img.data))
        }),
        encode_utf8(img.header.frame_id).len() + 1 <= u32::MAX,
        encode_utf8(img.encoding).len() + 1 <= u32::MAX,
        img.data.len() <= u32::MAX,
    ensures
        ({
            let p1 = cdr_header_bytes(0, img.header).len() as int;
            let p2 = p1 + cdr_padding(p1, 4).len() + 4;
            let p3 = p2 + 4;
            let p4 = p3 + cdr_string_bytes(p3, img.encoding).len();
            let p5 = p4 + 1;
            let p6 = p5 + cdr_padding(p5, 4).len() + 4;
            &&& cdr_header(b, 0) == Some((img.header, p1))
            &&& cdr_u32(b, cdr_align(p1, 4)) == Some((img.height, p2))
            &&& cdr_u32(b, p2) == Some((img.width, p3))
            &&& cdr_string(b, p3) == Some((img.encoding, p4))
            &&& cdr_u8(b, p4) == Some((img.is_bigendian, p5))
            &&& cdr_u32(b, cdr_align(p5, 4)) == Some((img.step, p6))
            &&& cdr_byte_array(b, p6) matches Some((d, _)) && d == img.data
        }),
{
    let p1 = cdr_header_bytes(0, img.header).len() as int;
    let p2 = p1 + cdr_padding(p1, 4).len() + 4;
    let p3 = p2 + 4;
    let p4 = p3 + cdr_string_bytes(p3, img.encoding).len();
    let p5 = p4 + 1;
    let p6 = p5 + cdr_padding(p5, 4).len() + 4;
    lemma_read_header(b, 0, img.header);
    lemma_read_aligned_u32(b, p1, img.height);
    lemma_read_u32_at(b, p2, img.width);
    lemma_read_string(b, p3, img.encoding);
    assert(b.subrange(p4, p4 + 1)[0] == img.is_bigendian);
    lemma_read_aligned_u32(b, p5, img.step);
    lemma_read_byte_array(b, p6, img.data);
}

/// Decoding is the inverse of encoding: an Image written as ROS2 writes it
/// (`image_bytes`) decodes to exactly that image: its header, height, width
/// (in that order), encoding, big-endian flag, step and pixel bytes.
pub proof fn law_image_roundtrip(img: ImageView)
    requires
        encode_utf8(img.header.frame_id).len() + 1 <= u32::MAX,
        encode_utf8(img.encoding).len() + 1 <= u32::MAX,
        img.data.len() <= u32::MAX,
    ensures
        spec_parse_image(image_bytes(img)) == Ok::<ImageView, CdrError>(img),
{
    let data = image_bytes(img);
    assert(cdr_body(data) =~= image_body_bytes(img));
    lemma_image_parts(cdr_body(data), img);
    lemma_image_fields(cdr_body(data), img);
}

/// Decoding is the inverse of encoding: a CompressedImage written as ROS2
/// writes it (`compressed_image_bytes`) decodes to exactly that image.
#[verifier::spinoff_prover]
pub proof fn law_compressed_image_roundtrip(img: CompressedImageView)
    requires
        encode_utf8(img.header.frame_id).len() + 1 <= u32::MAX,
        encode_utf8(img.format).len() + 1 <= u32::MAX,
        img.data.len() <= u32::MAX,
    ensures
        spec_parse_compressed_image(compressed_image_bytes(img)) == Ok::<CompressedImageView, CdrError>(
            img,
        ),
{
    let data = compressed_image_bytes(img);
    let b = cdr_body(data);
    let h = cdr_header_bytes(0, img.header);
    let p1 = h.len() as int;
    let format = cdr_string_bytes(p1, img.format);
    let p2 = p1 + format.len();
    let arr = cdr_byte_array_bytes(p2, img.data);
    assert(b =~= h + format + arr);
    assert(b.subrange(0, p1) =~= h);
    lemma_read_header(b, 0, img.header);
    assert(b.subrange(p1, p2) =~= format);
    lemma_read_string(b, p1, img.format);
    assert(b.subrange(p2, p2 + arr.len()) =~= arr);
    lemma_read_byte_array(b, p2, img.data);
}

/// A `float64` sequence written at `pos`: padding to 4, its count as a
/// little-endian `u32`, then (unless empty) the values, padded to 8.
pub open spec fn cdr_f64_sequence_bytes(pos: int, v: Seq<u64>) -> Seq<u8> {
    let head = cdr_padding(pos, 4) + le_u32_bytes(v.len() as u32);
    if v.len() == 0 {
        head
    } else {
        head + cdr_u64s_bytes(pos + head.len(), v)
    }
}

/// The binning and region of interest that end a CameraInfo, written at
/// `pos`: padding to 4, then binning x and y, x and y offset, height and
/// width as little-endian `u32`s, and the rectify flag as a byte.
pub open spec fn camera_info_tail_bytes(pos: int, ci: CameraInfoView) -> Seq<u8> {
    cdr_padding(pos, 4) + le_u32_bytes(ci.binning_x) + le_u32_bytes(ci.binning_y) + le_u32_bytes(
        ci.roi.x_offset,
    ) + le_u32_bytes(ci.roi.y_offset) + le_u32_bytes(ci.roi.height) + le_u32_bytes(ci.roi.width)
        + seq![if ci.roi.do_rectify { 1u8 } else { 0u8 }]
}

/// Where each part of a CameraInfo body starts: the header at 0, then the
/// height and width, distortion model, D, K, R, P and the tail.
pub open spec fn camera_info_offsets(ci: CameraInfoView) -> Seq<int> {
    let p1 = cdr_header_bytes(0, ci.header).len() as int;
    let p3 = p1 + cdr_padding(p1, 4).len() + 8;
    let p4 = p3 + cdr_string_bytes(p3, ci.distortion_model).len();
    let p5 = p4 + cdr_f64_sequence_bytes(p4, ci.d).len();
    let p6 = p5 + cdr_u64s_bytes(p5, ci.k).len();
    let p7 = p6 + cdr_u64s_bytes(p6, ci.r).len();
    let p8 = p7 + cdr_u64s_bytes(p7, ci.p).len();
    seq![p1, p3, p4, p5, p6, p7, p8]
}

/// The body of a CameraInfo as ROS2 writes it (after the encapsulation
/// header).
#[verifier::opaque]
pub open spec fn camera_info_body_bytes(ci: CameraInfoView) -> Seq<u8> {
    let o = camera_info_offsets(ci);
    cdr_header_bytes(0, ci.header) + (cdr_padding(o[0], 4) + le_u32_bytes(ci.height) + le_u32_bytes(
        ci.width,
    )) + cdr_string_bytes(o[1], ci.distortion_model) + cdr_f64_sequence_bytes(o[2], ci.d)
        + cdr_u64s_bytes(o[3], ci.k) + cdr_u64s_bytes(o[4], ci.r) + cdr_u64s_bytes(o[5], ci.p)
        + camera_info_tail_bytes(o[6], ci)
}

/// A sensor_msgs/CameraInfo as ROS2 writes it.
pub open spec fn camera_info_bytes(ci: CameraInfoView) -> Seq<u8> {
    seq![0u8, 1u8, 0u8, 0u8] + camera_info_body_bytes(ci)
}

/// A `float64` sequence written at `pos` reads back.
proof fn lemma_read_f64_sequence(b: Seq<u8>, pos: int, v: Seq<u64>)
    requires
        holds_at(b, pos, cdr_f64_sequence_bytes(pos, v)),
        v.len() <= u32::MAX,
    ensures
        cdr_f64_sequence(b, pos) == Some((v, pos + cdr_f64_sequence_bytes(pos, v).len())),
{
    let head = cdr_padding(pos, 4) + le_u32_bytes(v.len() as u32);
    if v.len() == 0 {
        lemma_read_aligned_u32(b, pos, 0);
        assert(v =~= Seq::<u64>::empty());
    } else {
        lemma_holds_split(b, pos, head, cdr_u64s_bytes(pos + head.len(), v));
        lemma_read_aligned_u32(b, pos, v.len() as u32);
        lemma_read_u64s(b, pos + head.len(), v);
    }
}

/// The tail of a CameraInfo written at `pos` reads back.
#[verifier::spinoff_prover]
proof fn lemma_read_camera_info_tail(b: Seq<u8>, pos: int, ci: CameraInfoView)
    requires
        holds_at(b, pos, camera_info_tail_bytes(pos, ci)),
    ensures
        spec_camera_info_tail(
            b,
            cdr_align(pos, 4),
            ci.header,
            ci.height,
            ci.width,
            ci.distortion_model,
            ci.d,
            ci.k,
            ci.r,
            ci.p,
        ) == Ok::<CameraInfoView, CdrError>(ci),
{
    let pad = cdr_padding(pos, 4);
    let q0 = pos + pad.len();
    lemma_padding_aligns(pos, 4);
    let a1 = pad + le_u32_bytes(ci.binning_x);
    let a2 = a1 + le_u32_bytes(ci.binning_y);
    let a3 = a2 + le_u32_bytes(ci.roi.x_offset);
    let a4 = a3 + le_u32_bytes(ci.roi.y_offset);
    let a5 = a4 + le_u32_bytes(ci.roi.height);
    let a6 = a5 + le_u32_bytes(ci.roi.width);
    let flag = seq![if ci.roi.do_rectify { 1u8 } else { 0u8 }];
    assert(camera_info_tail_bytes(pos, ci) == a6 + flag);
    lemma_holds_split(b, pos, a6, flag);
    lemma_holds_split(b, pos, a5, le_u32_bytes(ci.roi.width));
    lemma_holds_split(b, pos, a4, le_u32_bytes(ci.roi.height));
    lemma_holds_split(b, pos, a3, le_u32_bytes(ci.roi.y_offset));
    lemma_holds_split(b, pos, a2, le_u32_bytes(ci.roi.x_offset));
    lemma_holds_split(b, pos, a1, le_u32_bytes(ci.binning_y));
    lemma_holds_split(b, pos, pad, le_u32_bytes(ci.binning_x));
    lemma_read_u32_at(b, q0, ci.binning_x);
    lemma_read_u32_at(b, q0 + 4, ci.binning_y);
    lemma_read_u32_at(b, q0 + 8, ci.roi.x_offset);
    lemma_read_u32_at(b, q0 + 12, ci.roi.y_offset);
    lemma_read_u32_at(b, q0 + 16, ci.roi.height);
    lemma_read_u32_at(b, q0 + 20, ci.roi.width);
    assert(b.subrange(q0 + 24, q0 + 25)[0] == flag[0]);
}

/// The parts of a CameraInfo body are held where they were written.
#[verifier::spinoff_prover]
proof fn lemma_camera_info_parts(b: Seq<u8>, ci: CameraInfoView)
    requires
        b == camera_info_body_bytes(ci),
    ensures
        ({
            let o = camera_info_offsets(ci);
            &&& holds_at(b, 0, cdr_header_bytes(0, ci.header))
            &&& holds_at(b, o[0], cdr_padding(o[0], 4) + le_u32_bytes(ci.height))
            &&& holds_at(b, o[1] - 4, le_u32_bytes(ci.width))
            &&& holds_at(b, o[1], cdr_string_bytes(o[1], ci.distortion_model))
            &&& holds_at(b, o[2], cdr_f64_sequence_bytes(o[2], ci.d))
            &&& holds_at(b, o[3], cdr_u64s_bytes(o[3], ci.k))
            &&& holds_at(b, o[4], cdr_u64s_bytes(o[4], ci.r))
            &&& holds_at(b, o[5], cdr_u64s_bytes(o[5], ci.p))
            &&& holds_at(b, o[6], camera_info_tail_bytes(o[6], ci))
        }),
{
    reveal(camera_info_body_bytes);
    let o = camera_info_offsets(ci);
    let h = cdr_header_bytes(0, ci.header);
    let hw = cdr_padding(o[0], 4) + le_u32_bytes(ci.height);
    let x1 = h + (hw + le_u32_bytes(ci.width));
    let x2 = x1 + cdr_string_bytes(o[1], ci.distortion_model);
    let x3 = x2 + cdr_f64_sequence_bytes(o[2], ci.d);
    let x4 = x3 + cdr_u64s_bytes(o[3], ci.k);
    let x5 = x4 + cdr_u64s_bytes(o[4], ci.r);
    let x6 = x5 + cdr_u64s_bytes(o[5], ci.p);
    assert(b == x6 + camera_info_tail_bytes(o[6], ci));
    assert(b.subrange(0, b.len() as int) =~= b);
    lemma_holds_split(b, 0, x6, camera_info_tail_bytes(o[6], ci));
    lemma_holds_split(b, 0, x5, cdr_u64s_bytes(o[5], ci.p));
    lemma_holds_split(b, 0, x4, cdr_u64s_bytes(o[4], ci.r));
    lemma_holds_split(b, 0, x3, cdr_u64s_bytes(o[3], ci.k));
    lemma_holds_split(b, 0, x2, cdr_f64_sequence_bytes(o[2], ci.d));
    lemma_holds_split(b, 0, x1, cdr_string_bytes(o[1], ci.distortion_model));
    lemma_holds_split(b, 0, h, hw + le_u32_bytes(ci.width));
    lemma_holds_split(b, o[0], hw, le_u32_bytes(ci.width));
}

/// Each field of a CameraInfo body reads back where it was written.
#[verifier::spinoff_prover]
proof fn lemma_camera_info_fields(b: Seq<u8>, ci: CameraInfoView)
    requires
        ({
            let o = camera_info_offsets(ci);
            &&& holds_at(b, 0, cdr_header_bytes(0, ci.header))
            &&& holds_at(b, o[0], cdr_padding(o[0], 4) + le_u32_bytes(ci.height))
            &&& holds_at(b, o[1] - 4, le_u32_bytes(ci.width))
            &&& holds_at(b, o[1], cdr_string_bytes(o[1], ci.distortion_model))
            &&& holds_at(b, o[2], cdr_f64_sequence_bytes(o[2], ci.d))
            &&& holds_at(b, o[3], cdr_u64s_bytes(o[3], ci.k))
            &&& holds_at(b, o[4], cdr_u64s_bytes(o[4], ci.r))
            &&& holds_at(b, o[5], cdr_u64s_bytes(o[5], ci.p))
            &&& holds_at(b, o[6], camera_info_tail_bytes(o[6], ci))
        }),
        encode_utf8(ci.header.frame_id).len() + 1 <= u32::MAX,
        encode_utf8(ci.distortion_model).len() + 1 <= u32::MAX,
        ci.d.len() <= u32::MAX,
        ci.k.len() == 9,
        ci.r.len() == 9,
        ci.p.len() == 12,
    ensures
        ({
            let o = camera_info_offsets(ci);
            &&& cdr_header(b, 0) == Some((ci.header, o[0]))
            &&& cdr_u32(b, cdr_align(o[0], 4)) == Some((ci.height, o[1] - 4))
            &&& cdr_u32(b, o[1] - 4) == Some((ci.width, o[1]))
            &&& cdr_string(b, o[1]) == Some((ci.distortion_model, o[2]))
            &&& cdr_f64_sequence(b, o[2]) == Some((ci.d, o[3]))
            &&& cdr_f64_array(b, o[3], 9) == Some((ci.k, o[4]))
            &&& cdr_f64_array(b, o[4], 9) == Some((ci.r, o[5]))
            &&& cdr_f64_array(b, o[5], 12) == Some((ci.p, o[6]))
            &&& spec_camera_info_tail(
                b,
                cdr_align(o[6], 4),
                ci.header,
                ci.height,
                ci.width,
                ci.distortion_model,
                ci.d,
                ci.k,
                ci.r,
                ci.p,
            ) == Ok::<CameraInfoView, CdrError>(ci)
        }),
{
    let o = camera_info_offsets(ci);
    lemma_read_header(b, 0, ci.header);
    lemma_read_aligned_u32(b, o[0], ci.height);
    lemma_read_u32_at(b, o[1] - 4, ci.width);
    lemma_read_string(b, o[1], ci.distortion_model);
    lemma_read_f64_sequence(b, o[2], ci.d);
    lemma_read_u64s(b, o[3], ci.k);
    lemma_read_u64s(b, o[4], ci.r);
    lemma_read_u64s(b, o[5], ci.p);
    lemma_read_camera_info_tail(b, o[6], ci);
}

/// Decoding is the inverse of encoding: a CameraInfo written as ROS2 writes
/// it (`camera_info_bytes`) decodes to exactly that CameraInfo: header,
/// height and width, distortion model, D, K (9 values), R (9), P (12),
/// binning x and y, and the region of interest field by field.
#[verifier::spinoff_prover]
pub proof fn law_camera_info_roundtrip(ci: CameraInfoView)
    requires
        encode_utf8(ci.header.frame_id).len() + 1 <= u32::MAX,
        encode_utf8(ci.distortion_model).len() + 1 <= u32::MAX,
        ci.d.len() <= u32::MAX,
        ci.k.len() == 9,
        ci.r.len() == 9,
        ci.p.len() == 12,
    ensures
        spec_parse_camera_info(camera_info_bytes(ci)) == Ok::<CameraInfoView, CdrError>(ci),
{
    let data = camera_info_bytes(ci);
    let b = cdr_body(data);
    assert(b =~= camera_info_body_bytes(ci));
    lemma_camera_info_parts(b, ci);
    lemma_camera_info_fields(b, ci);
}

// ---- Reading ----

struct CdrCursor<'a> {
    data: &'a [u8],
    pos: usize,
}

impl<'a> CdrCursor<'a> {
    /// The cursor's position never passes the end of the data by more than
    /// one alignment step.
    spec fn wf(&self) -> bool {
        &&& self.data@.len() <= isize::MAX
        &&& self.pos <= self.data@.len() + 8
    }

    /// The position is within the data.
    spec fn within(&self) -> bool {
        &&& self.wf()
        &&& self.pos <= self.data@.len()
    }

    fn align_to(&mut self, alignment: usize)
        requires
            old(self).within(),
            alignment == 4 || alignment == 8,
        ensures
            final(self).wf(),
            final(self).data == old(self).data,
            final(self).pos == cdr_align(old(self).pos as int, alignment as int),
    {
        let remainder = self.pos % alignment;
        if remainder != 0 {
            self.pos = self.pos + alignment - remainder;
        }
    }

    fn read_u8(&mut self) -> (r: Result<u8, CdrError>)
        requires
            old(self).wf(),
        ensures
            final(self).wf(),
            r is Ok ==> final(self).within(),
            final(self).data == old(self).data,
            match cdr_u8(old(self).data@, old(self).pos as int) {
                Some((v, p)) => r == Ok::<u8, CdrError>(v) && final(self).pos == p,
                None => r == Err::<u8, CdrError>(CdrError::UnexpectedEof),
            },
    {
        if self.pos >= self.data.len() {
            return Err(CdrError::UnexpectedEof);
        }
        let v = self.data[self.pos];
        self.pos = self.pos + 1;
        Ok(v)
    }

    fn read_u32(&mut self) -> (r: Result<u32, CdrError>)
        requires
            old(self).wf(),
        ensures
            final(self).wf(),
            r is Ok ==> final(self).within(),
            final(self).data == old(self).data,
            match cdr_u32(old(self).data@, old(self).pos as int) {
                Some((v, p)) => r == Ok::<u32, CdrError>(v) && final(self).pos == p,
                None => r == Err::<u32, CdrError>(CdrError::UnexpectedEof),
            },
    {
        if self.pos > self.data.len() || self.data.len() - self.pos < 4 {
            return Err(CdrError::UnexpectedEof);
        }
        let v = read_le_u32(&self.data[self.pos..self.pos + 4]);
        self.pos = self.pos + 4;
        Ok(v)
    }

    fn read_u64(&mut self) -> (r: Result<u64, CdrError>)
        requires
            old(self).wf(),
        ensures
            final(self).wf(),
            r is Ok ==> final(self).within(),
            final(self).data == old(self).data,
            match cdr_u64(old(self).data@, old(self).pos as int) {
                Some((v, p)) => r == Ok::<u64, CdrError>(v) && final(self).pos == p,
                None => r == Err::<u64, CdrError>(CdrError::UnexpectedEof),
            },
    {
        if self.pos > self.data.len() || self.data.len() - self.pos < 8 {
            return Err(CdrError::UnexpectedEof);
        }
        let v = read_le_u64(&self.data[self.pos..self.pos + 8]);
        self.pos = self.pos + 8;
        Ok(v)
    }

    /// Parse ROS2 CDR-encoded string
    fn read_string(&mut self) -> (r: Result<String, CdrError>)
        requires
            old(self).within(),
        ensures
            final(self).wf(),
            r is Ok ==> final(self).within(),
            final(self).data == old(self).data,
            match cdr_string(old(self).data@, old(self).pos as int) {
                Some((v, p)) => r matches Ok(s) && s@ == v && final(self).pos == p,
                None => r == Err::<String, CdrError>(CdrError::UnexpectedEof),
            },
    {
        self.align_to(4);
        let len = self.read_u32()? as usize;
        if len == 0 {
            return Ok(String::new());
        }
        if self.data.len() - self.pos < len {
            return Err(CdrError::UnexpectedEof);
        }
        let mut end = self.pos + len;
        let raw_end = end;
        if self.data[end - 1] == 0 {
            end = end - 1;
        }
        let text = lossy_string(&self.data[self.pos..end]);
        proof {
            let raw = self.data@.subrange(self.pos as int, raw_end as int);
            assert(raw.last() == self.data@[raw_end - 1]);
            if raw.last() == 0 {
                assert(raw.drop_last() =~= self.data@.subrange(self.pos as int, end as int));
            } else {
                assert(raw =~= self.data@.subrange(self.pos as int, end as int));
            }
        }
        self.pos = raw_end;
        Ok(text)
    }

    /// Parse ROS2 CDR-encoded byte array
    fn read_byte_array(&mut self) -> (r: Result<Vec<u8>, CdrError>)
        requires
            old(self).within(),
        ensures
            final(self).wf(),
            r is Ok ==> final(self).within(),
            final(self).data == old(self).data,
            match cdr_byte_array(old(self).data@, old(self).pos as int) {
                Some((v, p)) => r matches Ok(bytes) && bytes@ == v && final(self).pos == p,
                None => r == Err::<Vec<u8>, CdrError>(CdrError::UnexpectedEof),
            },
    {
        self.align_to(4);
        let len = self.read_u32()? as usize;
        if self.data.len() - self.pos < len {
            return Err(CdrError::UnexpectedEof);
        }
        let bytes = slice_to_vec(&self.data[self.pos..self.pos + len]);
        self.pos = self.pos + len;
        Ok(bytes)
    }

    /// Parse ROS2 CDR-encoded Header
    fn read_header(&mut self) -> (r: Result<Header, CdrError>)
        requires
            old(self).within(),
        ensures
            final(self).wf(),
            r is Ok ==> final(self).within(),
            final(self).data == old(self).data,
            match cdr_header(old(self).data@, old(self).pos as int) {
                Some((v, p)) => r matches Ok(h) && h@ == v && final(self).pos == p,
                None => r == Err::<Header, CdrError>(CdrError::UnexpectedEof),
            },
    {
        let sec = self.read_u32()?;
        let nanosec = self.read_u32()?;
        let frame_id = self.read_string()?;
        Ok(Header { stamp: Time { sec: sec as i32, nanosec }, frame_id })
    }

    /// `n` consecutive little-endian `u64`s.
    fn read_u64s(&mut self, n: usize) -> (r: Result<Vec<u64>, CdrError>)
        requires
            old(self).wf(),
        ensures
            final(self).wf(),
            r is Ok ==> final(self).within(),
            final(self).data == old(self).data,
            match cdr_u64s(old(self).data@, old(self).pos as int, n as nat) {
                Some((v, p)) => r matches Ok(vs) && vs@ == v && final(self).pos == p,
                None => r == Err::<Vec<u64>, CdrError>(CdrError::UnexpectedEof),
            },
    {
        let ghost start = self.pos as int;
        let ghost b = self.data@;
        let mut vs: Vec<u64> = Vec::new();
        let mut i: usize = 0;
        if n == 0 && self.pos > self.data.len() {
            return Err(CdrError::UnexpectedEof);
        }
        while i < n
            invariant
                self.wf(),
                self.data == old(self).data,
                b == self.data@,
                start == old(self).pos,
                i <= n,
                self.pos == start + 8 * i,
                i > 0 ==> self.pos <= b.len(),
                n == 0 ==> self.pos <= b.len(),
                vs@ == Seq::new(i as nat, |j: int| le_u64_value(b.subrange(start + 8 * j, start + 8 * j + 8)) as u64),
            decreases n - i,
        {
            let v = self.read_u64()?;
            vs.push(v);
            i = i + 1;
            proof {
                assert(vs@ =~= Seq::new(i as nat, |j: int| le_u64_value(b.subrange(start + 8 * j, start + 8 * j + 8)) as u64));
            }
        }
        Ok(vs)
    }

    /// Read a fixed-size f64 array from CDR data, as bit patterns
    fn read_f64_array<const N: usize>(&mut self) -> (r: Result<[u64; N], CdrError>)
        requires
            old(self).within(),
        ensures
            final(self).wf(),
            r is Ok ==> final(self).within(),
            final(self).data == old(self).data,
            match cdr_f64_array(old(self).data@, old(self).pos as int, N as nat) {
                Some((v, p)) => r matches Ok(arr) && arr@ == v && final(self).pos == p,
                None => r == Err::<[u64; N], CdrError>(CdrError::UnexpectedEof),
            },
    {
        self.align_to(8);
        let vs = self.read_u64s(N)?;
        let mut arr: [u64; N] = array_fill_for_copy_types(0u64);
        let mut i: usize = 0;
        while i < N
            invariant
                i <= N,
                vs@.len() == N,
                arr@.len() == N,
                forall|j: int| 0 <= j < i ==> arr@[j] == vs@[j],
            decreases N - i,
        {
            arr[i] = vs[i];
            i = i + 1;
        }
        assert(arr@ =~= vs@);
        Ok(arr)
    }

    /// Read a variable-length f64 sequence from CDR data, as bit patterns
    fn read_f64_sequence(&mut self) -> (r: Result<Vec<u64>, CdrError>)
        requires
            old(self).within(),
        ensures
            final(self).wf(),
            r is Ok ==> final(self).within(),
            final(self).data == old(self).data,
            match cdr_f64_sequence(old(self).data@, old(self).pos as int) {
                Some((v, p)) => r matches Ok(vs) && vs@ == v && final(self).pos == p,
                None => r == Err::<Vec<u64>, CdrError>(CdrError::UnexpectedEof),
            },
    {
        self.align_to(4);
        let len = self.read_u32()? as usize;
        if len == 0 {
            return Ok(Vec::new());
        }
        self.align_to(8);
        self.read_u64s(len)
    }

    fn read_vector3(&mut self) -> (r: Result<Vector3, CdrError>)
        requires
            old(self).within(),
        ensures
            final(self).wf(),
            r is Ok ==> final(self).within(),
            final(self).data == old(self).data,
            match cdr_vector3(old(self).data@, old(self).pos as int) {
                Some((v, p)) => r == Ok::<Vector3, CdrError>(v) && final(self).pos == p,
                None => r == Err::<Vector3, CdrError>(CdrError::UnexpectedEof),
            },
    {
        self.align_to(8);
        let v = self.read_u64s(3)?;
        Ok(Vector3 { x: v[0], y: v[1], z: v[2] })
    }

    fn read_quaternion(&mut self) -> (r: Result<Quaternion, CdrError>)
        requires
            old(self).within(),
        ensures
            final(self).wf(),
            r is Ok ==> final(self).within(),
            final(self).data == old(self).data,
            match cdr_quaternion(old(self).data@, old(self).pos as int) {
                Some((v, p)) => r == Ok::<Quaternion, CdrError>(v) && final(self).pos == p,
                None => r == Err::<Quaternion, CdrError>(CdrError::UnexpectedEof),
            },
    {
        self.align_to(8);
        let v = self.read_u64s(4)?;
        Ok(Quaternion { x: v[0], y: v[1], z: v[2], w: v[3] })
    }

    /// Parse ROS2 CDR-encoded geometry_msgs/TransformStamped
    fn read_transform_stamped(&mut self) -> (r: Result<TransformStamped, CdrError>)
        requires
            old(self).within(),
        ensures
            final(self).wf(),
            r is Ok ==> final(self).within(),
            final(self).data == old(self).data,
            match cdr_transform_stamped(old(self).data@, old(self).pos as int) {
                Some((v, p)) => r matches Ok(t) && t@ == v && final(self).pos == p,
                None => r == Err::<TransformStamped, CdrError>(CdrError::UnexpectedEof),
            },
    {
        let header = self.read_header()?;
        let child_frame_id = self.read_string()?;
        let translation = self.read_vector3()?;
        let rotation = self.read_quaternion()?;
        Ok(TransformStamped { header, child_frame_id, transform: Transform { translation, rotation } })
    }
}

/// Cursor over the body of a CDR message (after its encapsulation header).
fn body_cursor(data: &[u8]) -> (r: CdrCursor)
    requires
        data.len() >= 4,
        data.len() <= isize::MAX,
    ensures
        r.within(),
        r.pos == 0,
        r.data@ == cdr_body(data@),
{
    CdrCursor { data: &data[4..data.len()], pos: 0 }
}

/// Parse ROS2 CDR-encoded sensor_msgs/Image
pub fn parse_image(data: &[u8]) -> (r: Result<Image, CdrError>)
    requires
        data.len() <= isize::MAX,
    ensures
        match spec_parse_image(data@) {
            Ok(v) => r matches Ok(img) && img@ == v,
            Err(e) => r == Err::<Image, CdrError>(e),
        },
{
    // Skip CDR encapsulation header (4 bytes: 0x00 0x01 for little-endian, + 2 bytes options)
    if data.len() < 4 {
        return Err(CdrError::TooShort);
    }
    let mut cursor = body_cursor(data);
    let header = cursor.read_header()?;
    // height and width are u32, need 4-byte alignment
    cursor.align_to(4);
    let height = cursor.read_u32()?;
    let width = cursor.read_u32()?;
    let encoding = cursor.read_string()?;
    let is_bigendian = cursor.read_u8()?;
    // step is u32, need 4-byte alignment
    cursor.align_to(4);
    let step = cursor.read_u32()?;
    let img_data = cursor.read_byte_array()?;
    Ok(Image { header, height, width, encoding, is_bigendian, step, data: img_data })
}

/// Parse ROS2 CDR-encoded sensor_msgs/CompressedImage
pub fn parse_compressed_image(data: &[u8]) -> (r: Result<CompressedImage, CdrError>)
    requires
        data.len() <= isize::MAX,
    ensures
        match spec_parse_compressed_image(data@) {
            Ok(v) => r matches Ok(img) && img@ == v,
            Err(e) => r == Err::<CompressedImage, CdrError>(e),
        },
{
    if data.len() < 4 {
        return Err(CdrError::TooShort);
    }
    let mut cursor = body_cursor(data);
    let header = cursor.read_header()?;
    let format = cursor.read_string()?;
    let img_data = cursor.read_byte_array()?;
    Ok(CompressedImage { header, format, data: img_data })
}

/// Parse ROS2 CDR-encoded sensor_msgs/CameraInfo
pub fn parse_camera_info(data: &[u8]) -> (r: Result<CameraInfo, CdrError>)
    requires
        data.len() <= isize::MAX,
    ensures
        match spec_parse_camera_info(data@) {
            Ok(v) => r matches Ok(info) && info@ == v,
            Err(e) => r matches Err(e2) && e2 == e,
        },
{
    if data.len() < 4 {
        return Err(CdrError::TooShort);
    }
    let mut cursor = body_cursor(data);
    let header = cursor.read_header()?;
    cursor.align_to(4);
    let height = cursor.read_u32()?;
    let width = cursor.read_u32()?;
    let distortion_model = cursor.read_string()?;
    // D is a variable-length sequence
    let d = cursor.read_f64_sequence()?;
    // K, R, P are fixed-size arrays
    let k = cursor.read_f64_array::<9>()?;
    let r = cursor.read_f64_array::<9>()?;
    let p = cursor.read_f64_array::<12>()?;
    cursor.align_to(4);
    let binning_x = cursor.read_u32()?;
    let binning_y = cursor.read_u32()?;
    // RegionOfInterest
    let x_offset = cursor.read_u32()?;
    let y_offset = cursor.read_u32()?;
    let roi_height = cursor.read_u32()?;
    let roi_width = cursor.read_u32()?;
    let do_rectify = cursor.read_u8()? != 0;
    Ok(
        CameraInfo {
            header,
            height,
            width,
            distortion_model,
            d,
            k,
            r,
            p,
            binning_x,
            binning_y,
            roi: RegionOfInterest {
                x_offset,
                y_offset,
                height: roi_height,
                width: roi_width,
                do_rectify,
            },
        },
    )
}

/// Parse ROS2 CDR-encoded tf2_msgs/TFMessage
#[verifier::spinoff_prover]
#[verifier::rlimit(30)]
pub fn parse_tf_message(data: &[u8]) -> (r: Result<TFMessage, CdrError>)
    requires
        data.len() <= isize::MAX,
    ensures
        match spec_parse_tf_message(data@) {
            Ok(v) => r matches Ok(msg) && msg@ == v,
            Err(e) => r matches Err(e2) && e2 == e,
        },
{
    if data.len() < 4 {
        return Err(CdrError::TooShort);
    }
    let mut cursor = body_cursor(data);
    // TFMessage contains a sequence of TransformStamped
    cursor.align_to(4);
    let count = cursor.read_u32()?;
    let ghost b = cursor.data@;
    let ghost start = cursor.pos as int;
    assert(cdr_u32(b, 0) == Some((count, start)));
    let mut transforms: Vec<TransformStamped> = Vec::new();
    let mut i: u32 = 0;
    while i < count
        invariant
            cursor.within(),
            cursor.data@ == b,
            b == cdr_body(data@),
            data@.len() >= 4,
            cdr_u32(b, 0) == Some((count, start)),
            i <= count,
            cdr_transforms(b, start, i as nat) == Some(
                (transforms_view(transforms@), cursor.pos as int),
            ),
        decreases count - i,
    {
        let ghost pos = cursor.pos as int;
        let t = match cursor.read_transform_stamped() {
            Ok(t) => t,
            Err(e) => {
                proof {
                    lemma_transforms_stop(b, start, i as nat, count as nat);
                }
                return Err(e);
            },
        };
        let ghost before = transforms@;
        transforms.push(t);
        i = i + 1;
        proof {
            assert(transforms_view(transforms@) =~= transforms_view(before).push(t@));
        }
    }
    Ok(TFMessage { transforms })
}

} // verus!
