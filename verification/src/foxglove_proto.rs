//! Decoding of the protobuf-encoded Foxglove `CompressedImage` and
//! `CompressedVideo` messages.

use vstd::prelude::*;
use crate::ros2_msgs::{CompressedImage, CompressedImageView, Header, HeaderView, Time};
use crate::text::{lossy_string, str_chars, lossy_text};
use vstd::slice::slice_to_vec;

verus! {

pub const WIRE_VARINT: u8 = 0;
pub const WIRE_64BIT: u8 = 1;
pub const WIRE_LEN: u8 = 2;
pub const WIRE_32BIT: u8 = 5;

/// Why a protobuf message could not be decoded.
#[derive(Debug, Clone, Copy, PartialEq, Eq, Structural)]
pub enum ProtoError {
    TruncatedVarint,
    VarintTooLong,
    LengthOverflow,
    TruncatedLengthDelimited,
    UnsupportedWireType(u8),
    SkipOverflow,
    TruncatedField,
    SecondsOutOfRange,
    NanosOutOfRange,
    EmptyData,
    EmptyFormat,
    MissingTimestamp,
}

/// foxglove.CompressedVideo
#[derive(Debug, Clone)]
pub struct CompressedVideo {
    pub timestamp: Time,
    pub frame_id: String,
    pub data: Vec<u8>,
    pub format: String,
}

pub struct CompressedVideoView {
    pub timestamp: Time,
    pub frame_id: Seq<char>,
    pub data: Seq<u8>,
    pub format: Seq<char>,
}

impl View for CompressedVideo {
    type V = CompressedVideoView;

    open spec fn view(&self) -> CompressedVideoView {
        CompressedVideoView {
            timestamp: self.timestamp,
            frame_id: self.frame_id@,
            data: self.data@,
            format: self.format@,
        }
    }
}

// ---- The wire format ----

/// Base-128 varint at `pos`, after `shift` bits have been gathered into `acc`:
/// seven bits per byte, least significant group first, a set high bit marking
/// a following byte; bits beyond the 64th are dropped, and an eleventh byte is
/// refused.
pub open spec fn spec_varint_from(data: Seq<u8>, pos: int, shift: u64, acc: u64) -> Result<
    (u64, int),
    ProtoError,
>
    decreases 70 - shift,
{
    if shift >= 64 {
        Err(ProtoError::VarintTooLong)
    } else if pos < 0 || pos >= data.len() {
        Err(ProtoError::TruncatedVarint)
    } else {
        let byte = data[pos];
        let acc2 = acc | (((byte & 0x7f) as u64) << shift);
        if byte & 0x80 == 0 {
            Ok((acc2, pos + 1))
        } else {
            spec_varint_from(data, pos + 1, (shift + 7) as u64, acc2)
        }
    }
}

/// The varint at `pos` and the position just after it.
pub open spec fn spec_varint(data: Seq<u8>, pos: int) -> Result<(u64, int), ProtoError> {
    spec_varint_from(data, pos, 0, 0)
}

/// The field number, wire type and following position of the key at `pos`;
/// `None` at the end of the data.
pub open spec fn spec_key(data: Seq<u8>, pos: int) -> Result<Option<(u32, u8, int)>, ProtoError> {
    if pos >= data.len() {
        Ok(None)
    } else {
        match spec_varint(data, pos) {
            Ok((key, p)) => Ok(Some(((key >> 3) as u32, (key & 7) as u8, p))),
            Err(e) => Err(e),
        }
    }
}

/// Bounds of the length-delimited value whose length prefix is at `pos`.
pub open spec fn spec_len_delimited(data: Seq<u8>, pos: int) -> Result<(int, int), ProtoError> {
    match spec_varint(data, pos) {
        Err(e) => Err(e),
        Ok((len, p)) => {
            let end = p + (len as usize);
            if end > usize::MAX {
                Err(ProtoError::LengthOverflow)
            } else if end > data.len() {
                Err(ProtoError::TruncatedLengthDelimited)
            } else {
                Ok((p, end))
            }
        },
    }
}

/// Position after skipping `n` bytes at `pos`.
pub open spec fn spec_skip_bytes(data: Seq<u8>, pos: int, n: int) -> Result<int, ProtoError> {
    if pos + n > usize::MAX {
        Err(ProtoError::SkipOverflow)
    } else if pos + n > data.len() {
        Err(ProtoError::TruncatedField)
    } else {
        Ok(pos + n)
    }
}

/// Position after the value, of wire type `wire_type`, that starts at `pos`.
pub open spec fn spec_skip_field(data: Seq<u8>, pos: int, wire_type: u8) -> Result<int, ProtoError> {
    if wire_type == WIRE_VARINT {
        match spec_varint(data, pos) {
            Ok((_, p)) => Ok(p),
            Err(e) => Err(e),
        }
    } else if wire_type == WIRE_64BIT {
        spec_skip_bytes(data, pos, 8)
    } else if wire_type == WIRE_LEN {
        match spec_varint(data, pos) {
            Ok((n, p)) => spec_skip_bytes(data, p, (n as usize) as int),
            Err(e) => Err(e),
        }
    } else if wire_type == WIRE_32BIT {
        spec_skip_bytes(data, pos, 4)
    } else {
        Err(ProtoError::UnsupportedWireType(wire_type))
    }
}

pub proof fn lemma_varint_advances(data: Seq<u8>, pos: int, shift: u64, acc: u64)
    ensures
        spec_varint_from(data, pos, shift, acc) matches Ok((_, p)) ==> pos < p <= data.len(),
    decreases 70 - shift,
{
    if shift < 64 && 0 <= pos < data.len() && data[pos] & 0x80 != 0 {
        let acc2 = acc | (((data[pos] & 0x7f) as u64) << shift);
        lemma_varint_advances(data, pos + 1, (shift + 7) as u64, acc2);
    }
}

pub proof fn lemma_key_advances(data: Seq<u8>, pos: int)
    ensures
        spec_key(data, pos) matches Ok(Some((_, _, p))) ==> pos < p <= data.len(),
{
    lemma_varint_advances(data, pos, 0, 0);
}

pub proof fn lemma_len_delimited_bounds(data: Seq<u8>, pos: int)
    ensures
        spec_len_delimited(data, pos) matches Ok((s, e)) ==> pos < s <= e <= data.len(),
{
    lemma_varint_advances(data, pos, 0, 0);
}

pub proof fn lemma_skip_advances(data: Seq<u8>, pos: int, wire_type: u8)
    requires
        0 <= pos,
    ensures
        spec_skip_field(data, pos, wire_type) matches Ok(p) ==> pos <= p <= data.len(),
{
    lemma_varint_advances(data, pos, 0, 0);
}

// ---- google.protobuf.Timestamp ----

/// Seconds (field 1) and nanos (field 2) of a Timestamp, the last of each
/// winning, every other field skipped.
pub open spec fn spec_timestamp_fields(data: Seq<u8>, pos: int, sec: i64, nanos: i32) -> Result<
    (i64, i32),
    ProtoError,
>
    decreases data.len() - pos,
{
    match spec_key(data, pos) {
        Err(e) => Err(e),
        Ok(None) => Ok((sec, nanos)),
        Ok(Some((field, wire_type, p))) => {
            proof {
                lemma_key_advances(data, pos);
                lemma_varint_advances(data, p, 0, 0);
                lemma_skip_advances(data, p, wire_type);
            }
            if field == 1 && wire_type == WIRE_VARINT {
                match spec_varint(data, p) {
                    Err(e) => Err(e),
                    Ok((v, p2)) => spec_timestamp_fields(data, p2, v as i64, nanos),
                }
            } else if field == 2 && wire_type == WIRE_VARINT {
                match spec_varint(data, p) {
                    Err(e) => Err(e),
                    Ok((v, p2)) => spec_timestamp_fields(data, p2, sec, v as i32),
                }
            } else {
                match spec_skip_field(data, p, wire_type) {
                    Err(e) => Err(e),
                    Ok(p2) => spec_timestamp_fields(data, p2, sec, nanos),
                }
            }
        },
    }
}

/// A Timestamp message as a ROS2 time; seconds must fit `i32` and nanos must
/// not be negative.
pub open spec fn spec_parse_timestamp(data: Seq<u8>) -> Result<Time, ProtoError> {
    match spec_timestamp_fields(data, 0, 0, 0) {
        Err(e) => Err(e),
        Ok((sec, nanos)) => {
            if sec < i32::MIN || sec > i32::MAX {
                Err(ProtoError::SecondsOutOfRange)
            } else if nanos < 0 {
                Err(ProtoError::NanosOutOfRange)
            } else {
                Ok(Time { sec: sec as i32, nanosec: nanos as u32 })
            }
        },
    }
}

// ---- Foxglove CompressedImage / CompressedVideo ----

/// The raw values of the four fields shared by CompressedImage and
/// CompressedVideo.
pub struct FoxgloveFields {
    pub stamp: Time,
    pub frame_id: Seq<u8>,
    pub data: Seq<u8>,
    pub format: Seq<u8>,
}

pub open spec fn empty_fields() -> FoxgloveFields {
    FoxgloveFields {
        stamp: Time { sec: 0, nanosec: 0 },
        frame_id: Seq::empty(),
        data: Seq::empty(),
        format: Seq::empty(),
    }
}

/// Fields 1 (timestamp), 2 (frame_id), 3 (data) and 4 (format), each when
/// length-delimited, the last occurrence winning; every other field skipped.
pub open spec fn spec_fields(data: Seq<u8>, pos: int, acc: FoxgloveFields) -> Result<
    FoxgloveFields,
    ProtoError,
>
    decreases data.len() - pos,
{
    match spec_key(data, pos) {
        Err(e) => Err(e),
        Ok(None) => Ok(acc),
        Ok(Some((field, wire_type, p))) => {
            proof {
                lemma_key_advances(data, pos);
                lemma_len_delimited_bounds(data, p);
                lemma_skip_advances(data, p, wire_type);
            }
            if wire_type == WIRE_LEN && 1 <= field <= 4 {
                match spec_len_delimited(data, p) {
                    Err(e) => Err(e),
                    Ok((s, e)) => {
                        let value = data.subrange(s, e);
                        if field == 1 {
                            match spec_parse_timestamp(value) {
                                Err(err) => Err(err),
                                Ok(t) => spec_fields(
                                    data,
                                    e,
                                    FoxgloveFields {
                                        stamp: t,
                                        frame_id: acc.frame_id,
                                        data: acc.data,
                                        format: acc.format,
                                    },
                                ),
                            }
                        } else if field == 2 {
                            spec_fields(
                                data,
                                e,
                                FoxgloveFields {
                                    stamp: acc.stamp,
                                    frame_id: value,
                                    data: acc.data,
                                    format: acc.format,
                                },
                            )
                        } else if field == 3 {
                            spec_fields(
                                data,
                                e,
                                FoxgloveFields {
                                    stamp: acc.stamp,
                                    frame_id: acc.frame_id,
                                    data: value,
                                    format: acc.format,
                                },
                            )
                        } else {
                            spec_fields(
                                data,
                                e,
                                FoxgloveFields {
                                    stamp: acc.stamp,
                                    frame_id: acc.frame_id,
                                    data: acc.data,
                                    format: value,
                                },
                            )
                        }
                    },
                }
            } else {
                match spec_skip_field(data, p, wire_type) {
                    Err(e) => Err(e),
                    Ok(p2) => spec_fields(data, p2, acc),
                }
            }
        },
    }
}

/// The decoded foxglove.CompressedImage, as a ROS2 CompressedImage.
pub open spec fn spec_parse_compressed_image(data: Seq<u8>) -> Result<
    CompressedImageView,
    ProtoError,
> {
    match spec_fields(data, 0, empty_fields()) {
        Err(e) => Err(e),
        Ok(f) => {
            if f.data.len() == 0 {
                Err(ProtoError::EmptyData)
            } else {
                Ok(
                    CompressedImageView {
                        header: HeaderView { stamp: f.stamp, frame_id: lossy_text(f.frame_id) },
                        format: lossy_text(f.format),
                        data: f.data,
                    },
                )
            }
        },
    }
}

/// Whether `c` has the Unicode White_Space property: tab, line feed,
/// vertical tab, form feed, carriage return, space, next line, no-break
/// space, ogham space mark, the spaces U+2000 to U+200A, line separator,
/// paragraph separator, narrow no-break space, medium mathematical space and
/// ideographic space.
pub open spec fn char_is_whitespace(c: char) -> bool {
    let v = c as u32;
    (0x09 <= v <= 0x0D) || v == 0x20 || v == 0x85 || v == 0xA0 || v == 0x1680 || (0x2000 <= v
        <= 0x200A) || v == 0x2028 || v == 0x2029 || v == 0x202F || v == 0x205F || v == 0x3000
}

/// Whether `c` has the Unicode White_Space property (as `char::is_whitespace`).
fn is_whitespace(c: char) -> (r: bool)
    ensures
        r == char_is_whitespace(c),
{
    let v = c as u32;
    (0x09 <= v && v <= 0x0D) || v == 0x20 || v == 0x85 || v == 0xA0 || v == 0x1680 || (0x2000
        <= v && v <= 0x200A) || v == 0x2028 || v == 0x2029 || v == 0x202F || v == 0x205F || v
        == 0x3000
}

/// Nothing but whitespace is left once `s` is trimmed.
pub open spec fn is_blank(s: Seq<char>) -> bool {
    forall|i: int| 0 <= i < s.len() ==> #[trigger] char_is_whitespace(s[i])
}

fn str_is_blank(s: &str) -> (r: bool)
    ensures
        r == is_blank(s@),
{
    let cs = str_chars(s);
    let mut i: usize = 0;
    while i < cs.len()
        invariant
            cs@ == s@,
            i <= cs.len(),
            forall|j: int| 0 <= j < i ==> #[trigger] char_is_whitespace(cs@[j]),
        decreases cs.len() - i,
    {
        if !is_whitespace(cs[i]) {
            return false;
        }
        i = i + 1;
    }
    true
}

/// The decoded foxglove.CompressedVideo; its data must not be empty and its
/// format must not be blank.
pub open spec fn spec_parse_compressed_video(data: Seq<u8>) -> Result<
    CompressedVideoView,
    ProtoError,
> {
    match spec_fields(data, 0, empty_fields()) {
        Err(e) => Err(e),
        Ok(f) => {
            if f.data.len() == 0 {
                Err(ProtoError::EmptyData)
            } else if is_blank(lossy_text(f.format)) {
                Err(ProtoError::EmptyFormat)
            } else {
                Ok(
                    CompressedVideoView {
                        timestamp: f.stamp,
                        frame_id: lossy_text(f.frame_id),
                        data: f.data,
                        format: lossy_text(f.format),
                    },
                )
            }
        },
    }
}

// ---- Appending fields to a message ----

/// A varint read within `m` reads the same within `m` followed by `t`.
proof fn lemma_varint_append(m: Seq<u8>, t: Seq<u8>, pos: int, shift: u64, acc: u64)
    requires
        spec_varint_from(m, pos, shift, acc) is Ok,
    ensures
        spec_varint_from(m + t, pos, shift, acc) == spec_varint_from(m, pos, shift, acc),
    decreases 70 - shift,
{
    if shift < 64 && 0 <= pos < m.len() {
        let byte = m[pos];
        assert((m + t)[pos] == byte);
        if byte & 0x80 != 0 {
            let acc2 = acc | (((byte & 0x7f) as u64) << shift);
            lemma_varint_append(m, t, pos + 1, (shift + 7) as u64, acc2);
        }
    }
}

/// A value skipped within `m` is skipped the same within `m` followed by `t`.
proof fn lemma_skip_append(m: Seq<u8>, t: Seq<u8>, pos: int, wire_type: u8)
    requires
        spec_skip_field(m, pos, wire_type) is Ok,
    ensures
        spec_skip_field(m + t, pos, wire_type) == spec_skip_field(m, pos, wire_type),
{
    if wire_type == WIRE_VARINT || wire_type == WIRE_LEN {
        lemma_varint_append(m, t, pos, 0, 0);
    }
}

/// Parsing the fields of `m` followed by `t` reads those of `m` first, then
/// goes on over `t` with what `m` gave.
proof fn lemma_fields_append(m: Seq<u8>, t: Seq<u8>, pos: int, acc: FoxgloveFields)
    requires
        0 <= pos <= m.len(),
        spec_fields(m, pos, acc) is Ok,
    ensures
        spec_fields(m + t, pos, acc) == spec_fields(
            m + t,
            m.len() as int,
            spec_fields(m, pos, acc)->Ok_0,
        ),
    decreases m.len() - pos,
{
    let d = m + t;
    if pos < m.len() {
        lemma_varint_append(m, t, pos, 0, 0);
        lemma_key_advances(m, pos);
        assert(spec_key(d, pos) == spec_key(m, pos));
        let (field, wire_type, p) = spec_key(m, pos)->Ok_0->Some_0;
        lemma_len_delimited_bounds(m, p);
        lemma_skip_advances(m, p, wire_type);
        if wire_type == WIRE_LEN && 1 <= field <= 4 {
            lemma_varint_append(m, t, p, 0, 0);
            assert(spec_len_delimited(d, p) == spec_len_delimited(m, p));
            let (s, e) = spec_len_delimited(m, p)->Ok_0;
            assert(d.subrange(s, e) =~= m.subrange(s, e));
            let value = m.subrange(s, e);
            if field == 1 {
                let tm = spec_parse_timestamp(value)->Ok_0;
                lemma_fields_append(
                    m,
                    t,
                    e,
                    FoxgloveFields { stamp: tm, frame_id: acc.frame_id, data: acc.data, format: acc.format },
                );
            } else if field == 2 {
                lemma_fields_append(
                    m,
                    t,
                    e,
                    FoxgloveFields { stamp: acc.stamp, frame_id: value, data: acc.data, format: acc.format },
                );
            } else if field == 3 {
                lemma_fields_append(
                    m,
                    t,
                    e,
                    FoxgloveFields { stamp: acc.stamp, frame_id: acc.frame_id, data: value, format: acc.format },
                );
            } else {
                lemma_fields_append(
                    m,
                    t,
                    e,
                    FoxgloveFields { stamp: acc.stamp, frame_id: acc.frame_id, data: acc.data, format: value },
                );
            }
        } else {
            lemma_skip_append(m, t, p, wire_type);
            let p2 = spec_skip_field(m, p, wire_type)->Ok_0;
            lemma_fields_append(m, t, p2, acc);
        }
    }
}

/// A one-byte varint `b` at `pos` reads as `b`.
proof fn lemma_one_byte_varint(d: Seq<u8>, pos: int)
    requires
        0 <= pos < d.len(),
        d[pos] < 0x80,
    ensures
        spec_varint(d, pos) == Ok::<(u64, int), ProtoError>((d[pos] as u64, pos + 1)),
{
    let b = d[pos];
    assert((0u64 | (((b & 0x7f) as u64) << 0u64)) == b as u64 && b & 0x80 == 0) by (bit_vector)
        requires
            b < 0x80,
    ;
}

/// Appending, after a complete message, a field whose one-byte key `key`
/// names a field that is not read (a number other than 1 to 4, or a
/// varint value), with the one-byte varint value `value`, changes none of
/// the fields read.
proof fn lemma_fields_skip_appended(m: Seq<u8>, key: u8, value: u8)
    requires
        spec_fields(m, 0, empty_fields()) is Ok,
        key < 0x80,
        value < 0x80,
        key & 7 == WIRE_VARINT,
    ensures
        spec_fields(m + seq![key, value], 0, empty_fields()) == spec_fields(m, 0, empty_fields()),
{
    let t = seq![key, value];
    let d = m + t;
    let n = m.len() as int;
    let f = spec_fields(m, 0, empty_fields())->Ok_0;
    lemma_fields_append(m, t, 0, empty_fields());
    assert(d[n] == key && d[n + 1] == value);
    lemma_one_byte_varint(d, n);
    lemma_one_byte_varint(d, n + 1);
    assert(((key as u64) & 7) as u8 == key & 7) by (bit_vector);
    assert(spec_skip_field(d, n + 1, WIRE_VARINT) == Ok::<int, ProtoError>(n + 2));
    assert(spec_fields(d, n + 2, f) == Ok::<FoxgloveFields, ProtoError>(f));
}

/// A field of a number the message does not read, or of a read number but
/// another wire type, is skipped: appending such a field (here a varint
/// field with a one-byte key and value) to a message leaves what it decodes
/// to unchanged.
pub proof fn law_unread_fields_skipped(m: Seq<u8>, key: u8, value: u8)
    requires
        spec_fields(m, 0, empty_fields()) is Ok,
        key < 0x80,
        value < 0x80,
        key & 7 == WIRE_VARINT,
    ensures
        spec_parse_compressed_video(m + seq![key, value]) == spec_parse_compressed_video(m),
        spec_parse_compressed_image(m + seq![key, value]) == spec_parse_compressed_image(m),
{
    lemma_fields_skip_appended(m, key, value);
}

/// When a field occurs more than once, its last occurrence wins: appending
/// a frame_id field (key 0x12) holding `id` (of fewer than 128 bytes) to a
/// message sets the frame_id to `id` and leaves the rest as it was (for a
/// message whose bytes fit in memory).
pub proof fn law_last_occurrence_wins(m: Seq<u8>, id: Seq<u8>)
    requires
        spec_fields(m, 0, empty_fields()) is Ok,
        id.len() < 0x80,
        m.len() + 2 + id.len() <= usize::MAX,
    ensures
        ({
            let d = m + seq![0x12u8, id.len() as u8] + id;
            &&& spec_parse_compressed_image(m) matches Ok(c) ==> spec_parse_compressed_image(d)
                == Ok::<CompressedImageView, ProtoError>(
                CompressedImageView {
                    header: HeaderView { stamp: c.header.stamp, frame_id: lossy_text(id) },
                    format: c.format,
                    data: c.data,
                },
            )
            &&& spec_parse_compressed_video(m) matches Ok(v) ==> spec_parse_compressed_video(d)
                == Ok::<CompressedVideoView, ProtoError>(
                CompressedVideoView {
                    timestamp: v.timestamp,
                    frame_id: lossy_text(id),
                    data: v.data,
                    format: v.format,
                },
            )
        }),
{
    let t = seq![0x12u8, id.len() as u8] + id;
    let d = m + seq![0x12u8, id.len() as u8] + id;
    assert(d =~= m + t);
    let n = m.len() as int;
    let f = spec_fields(m, 0, empty_fields())->Ok_0;
    lemma_fields_append(m, t, 0, empty_fields());
    assert(d[n] == 0x12u8 && d[n + 1] == id.len() as u8);
    lemma_one_byte_varint(d, n);
    lemma_one_byte_varint(d, n + 1);
    assert(((0x12u8 as u64) >> 3) as u32 == 2 && ((0x12u8 as u64) & 7) as u8 == 2) by (bit_vector);
    assert(((id.len() as u8) as u64) as usize == id.len());
    assert(spec_len_delimited(d, n + 1) == Ok::<(int, int), ProtoError>((n + 2, d.len() as int)));
    assert(d.subrange(n + 2, d.len() as int) =~= id);
    let g = FoxgloveFields { stamp: f.stamp, frame_id: id, data: f.data, format: f.format };
    assert(spec_fields(d, d.len() as int, g) == Ok::<FoxgloveFields, ProtoError>(g));
    assert(spec_fields(d, 0, empty_fields()) == Ok::<FoxgloveFields, ProtoError>(g));
}

/// The fields read after appending, to a complete message, a
/// length-delimited field with one-byte key `key` (that of field 2, 3 or 4)
/// and a value `v` of fewer than 128 bytes.
pub open spec fn with_field(f: FoxgloveFields, key: u8, v: Seq<u8>) -> FoxgloveFields {
    if key == 0x12 {
        FoxgloveFields { stamp: f.stamp, frame_id: v, data: f.data, format: f.format }
    } else if key == 0x1a {
        FoxgloveFields { stamp: f.stamp, frame_id: f.frame_id, data: v, format: f.format }
    } else {
        FoxgloveFields { stamp: f.stamp, frame_id: f.frame_id, data: f.data, format: v }
    }
}

/// Appending a length-delimited field 2 (key 0x12), 3 (0x1a) or 4 (0x22)
/// sets that field.
proof fn lemma_append_len_field(m: Seq<u8>, key: u8, v: Seq<u8>)
    requires
        spec_fields(m, 0, empty_fields()) is Ok,
        key == 0x12 || key == 0x1a || key == 0x22,
        v.len() < 0x80,
        m.len() + 2 + v.len() <= usize::MAX,
    ensures
        spec_fields(m + seq![key, v.len() as u8] + v, 0, empty_fields()) == Ok::<FoxgloveFields, ProtoError>(
            with_field(spec_fields(m, 0, empty_fields())->Ok_0, key, v),
        ),
{
    let t = seq![key, v.len() as u8] + v;
    let d = m + seq![key, v.len() as u8] + v;
    assert(d =~= m + t);
    let n = m.len() as int;
    let f = spec_fields(m, 0, empty_fields())->Ok_0;
    lemma_fields_append(m, t, 0, empty_fields());
    assert(d[n] == key && d[n + 1] == v.len() as u8);
    lemma_one_byte_varint(d, n);
    lemma_one_byte_varint(d, n + 1);
    assert(((key as u64) & 7) as u8 == 2 && 2 <= ((key as u64) >> 3) as u32 <= 4 && (key == 0x12
        ==> ((key as u64) >> 3) as u32 == 2) && (key == 0x1a ==> ((key as u64) >> 3) as u32 == 3)
        && (key == 0x22 ==> ((key as u64) >> 3) as u32 == 4)) by (bit_vector)
        requires
            key == 0x12 || key == 0x1a || key == 0x22,
    ;
    assert(((v.len() as u8) as u64) as usize == v.len());
    assert(spec_len_delimited(d, n + 1) == Ok::<(int, int), ProtoError>((n + 2, d.len() as int)));
    assert(d.subrange(n + 2, d.len() as int) =~= v);
    let g = with_field(f, key, v);
    assert(spec_fields(d, d.len() as int, g) == Ok::<FoxgloveFields, ProtoError>(g));
}

/// A Timestamp of seconds `sec` and nanoseconds `nanos` (each below 128),
/// written as fields 1 and 2.
pub open spec fn timestamp_bytes(sec: u8, nanos: u8) -> Seq<u8> {
    seq![0x08u8, sec, 0x10u8, nanos]
}

proof fn lemma_read_timestamp(sec: u8, nanos: u8)
    requires
        sec < 0x80,
        nanos < 0x80,
    ensures
        spec_parse_timestamp(timestamp_bytes(sec, nanos)) == Ok::<Time, ProtoError>(
            Time { sec: sec as i32, nanosec: nanos as u32 },
        ),
{
    let b = timestamp_bytes(sec, nanos);
    lemma_one_byte_varint(b, 0);
    lemma_one_byte_varint(b, 1);
    lemma_one_byte_varint(b, 2);
    lemma_one_byte_varint(b, 3);
    assert(((0x08u8 as u64) >> 3) as u32 == 1 && ((0x08u8 as u64) & 7) as u8 == 0 && ((0x10u8
        as u64) >> 3) as u32 == 2 && ((0x10u8 as u64) & 7) as u8 == 0) by (bit_vector);
    assert(spec_timestamp_fields(b, 4, sec as i64, nanos as i32) == Ok::<(i64, i32), ProtoError>(
        (sec as i64, nanos as i32),
    ));
    assert(spec_timestamp_fields(b, 2, sec as i64, 0) == Ok::<(i64, i32), ProtoError>(
        (sec as i64, nanos as i32),
    ));
}

/// A message written as fields 1 to 4: a Timestamp (seconds and
/// nanoseconds below 128), frame_id, data and format (each of fewer than 128
/// bytes).
pub open spec fn foxglove_message_bytes(
    sec: u8,
    nanos: u8,
    frame_id: Seq<u8>,
    data: Seq<u8>,
    format: Seq<u8>,
) -> Seq<u8> {
    seq![0x0au8, 4u8] + timestamp_bytes(sec, nanos) + seq![0x12u8, frame_id.len() as u8] + frame_id
        + seq![0x1au8, data.len() as u8] + data + seq![0x22u8, format.len() as u8] + format
}

/// Decoding is the inverse of encoding: a message written from a
/// timestamp, a frame_id, data and a format decodes to exactly those, each in
/// its own field, for a CompressedImage and (where the format is not blank)
/// a CompressedVideo alike.
#[verifier::spinoff_prover]
pub proof fn law_foxglove_roundtrip(sec: u8, nanos: u8, frame_id: Seq<u8>, data: Seq<u8>, format: Seq<u8>)
    requires
        sec < 0x80,
        nanos < 0x80,
        frame_id.len() < 0x80,
        data.len() < 0x80,
        format.len() < 0x80,
        data.len() > 0,
    ensures
        ({
            let msg = foxglove_message_bytes(sec, nanos, frame_id, data, format);
            let stamp = Time { sec: sec as i32, nanosec: nanos as u32 };
            &&& spec_parse_compressed_image(msg) == Ok::<CompressedImageView, ProtoError>(
                CompressedImageView {
                    header: HeaderView { stamp, frame_id: lossy_text(frame_id) },
                    format: lossy_text(format),
                    data,
                },
            )
            &&& !is_blank(lossy_text(format)) ==> spec_parse_compressed_video(msg) == Ok::<
                CompressedVideoView,
                ProtoError,
            >(
                CompressedVideoView {
                    timestamp: stamp,
                    frame_id: lossy_text(frame_id),
                    data,
                    format: lossy_text(format),
                },
            )
        }),
{
    let ts = timestamp_bytes(sec, nanos);
    let m0 = Seq::<u8>::empty();
    assert(spec_fields(m0, 0, empty_fields()) == Ok::<FoxgloveFields, ProtoError>(empty_fields()));
    // The Timestamp field.
    let m1 = seq![0x0au8, 4u8] + ts;
    lemma_one_byte_varint(m1, 0);
    lemma_one_byte_varint(m1, 1);
    assert(((0x0au8 as u64) >> 3) as u32 == 1 && ((0x0au8 as u64) & 7) as u8 == 2) by (bit_vector);
    assert(((4u8 as u64) as usize) == 4);
    assert(spec_len_delimited(m1, 1) == Ok::<(int, int), ProtoError>((2, 6)));
    assert(m1.subrange(2, 6) =~= ts);
    lemma_read_timestamp(sec, nanos);
    let stamp = Time { sec: sec as i32, nanosec: nanos as u32 };
    let f1 = FoxgloveFields { stamp, frame_id: Seq::empty(), data: Seq::empty(), format: Seq::empty() };
    assert(spec_fields(m1, 6, f1) == Ok::<FoxgloveFields, ProtoError>(f1));
    assert(spec_fields(m1, 0, empty_fields()) == Ok::<FoxgloveFields, ProtoError>(f1));
    // The three length-delimited fields.
    lemma_append_len_field(m1, 0x12, frame_id);
    let m2 = m1 + seq![0x12u8, frame_id.len() as u8] + frame_id;
    lemma_append_len_field(m2, 0x1a, data);
    let m3 = m2 + seq![0x1au8, data.len() as u8] + data;
    lemma_append_len_field(m3, 0x22, format);
    let m4 = m3 + seq![0x22u8, format.len() as u8] + format;
    assert(m4 =~= foxglove_message_bytes(sec, nanos, frame_id, data, format));
}

/// The first length-delimited field 1 from `pos` on, read as a Timestamp.
pub open spec fn spec_first_timestamp(data: Seq<u8>, pos: int) -> Result<Time, ProtoError>
    decreases data.len() - pos,
{
    match spec_key(data, pos) {
        Err(e) => Err(e),
        Ok(None) => Err(ProtoError::MissingTimestamp),
        Ok(Some((field, wire_type, p))) => {
            proof {
                lemma_key_advances(data, pos);
                lemma_skip_advances(data, p, wire_type);
            }
            if field == 1 && wire_type == WIRE_LEN {
                match spec_len_delimited(data, p) {
                    Err(e) => Err(e),
                    Ok((s, e)) => spec_parse_timestamp(data.subrange(s, e)),
                }
            } else {
                match spec_skip_field(data, p, wire_type) {
                    Err(e) => Err(e),
                    Ok(p2) => spec_first_timestamp(data, p2),
                }
            }
        },
    }
}

// ---- Reading ----

struct ProtoCursor<'a> {
    data: &'a [u8],
    pos: usize,
}

impl<'a> ProtoCursor<'a> {
    fn new(data: &'a [u8]) -> (r: Self)
        ensures
            r.data@ == data@,
            r.pos == 0,
    {
        ProtoCursor { data, pos: 0 }
    }

    fn read_key(&mut self) -> (r: Result<Option<(u32, u8)>, ProtoError>)
        ensures
            final(self).data@ == old(self).data@,
            match spec_key(old(self).data@, old(self).pos as int) {
                Err(e) => r == Err::<Option<(u32, u8)>, ProtoError>(e),
                Ok(None) => r == Ok::<Option<(u32, u8)>, ProtoError>(None) && final(self).pos
                    == old(self).pos,
                Ok(Some((f, w, p))) => r == Ok::<Option<(u32, u8)>, ProtoError>(Some((f, w)))
                    && final(self).pos == p,
            },
    {
        if self.pos >= self.data.len() {
            return Ok(None);
        }
        let key = self.read_varint()?;
        Ok(Some(((key >> 3) as u32, (key & 0x07) as u8)))
    }

    fn read_varint(&mut self) -> (r: Result<u64, ProtoError>)
        ensures
            final(self).data@ == old(self).data@,
            match spec_varint(old(self).data@, old(self).pos as int) {
                Ok((v, p)) => r == Ok::<u64, ProtoError>(v) && final(self).pos == p,
                Err(e) => r == Err::<u64, ProtoError>(e),
            },
    {
        let ghost start = self.pos as int;
        let mut result: u64 = 0;
        let mut shift: u64 = 0;
        while shift < 64
            invariant
                self.data@ == old(self).data@,
                start == old(self).pos,
                shift % 7 == 0,
                shift <= 70,
                spec_varint(self.data@, start) == spec_varint_from(
                    self.data@,
                    self.pos as int,
                    shift,
                    result,
                ),
            decreases 70 - shift,
        {
            if self.pos >= self.data.len() {
                return Err(ProtoError::TruncatedVarint);
            }
            let byte = self.data[self.pos];
            self.pos = self.pos + 1;
            result = result | (((byte & 0x7f) as u64) << shift);
            if byte & 0x80 == 0 {
                return Ok(result);
            }
            shift = shift + 7;
        }
        Err(ProtoError::VarintTooLong)
    }

    fn read_len_delimited(&mut self) -> (r: Result<&'a [u8], ProtoError>)
        ensures
            final(self).data@ == old(self).data@,
            final(self).data == old(self).data,
            match spec_len_delimited(old(self).data@, old(self).pos as int) {
                Ok((s, e)) => r matches Ok(v) && v@ == old(self).data@.subrange(s, e)
                    && final(self).pos == e,
                Err(e) => r == Err::<&'a [u8], ProtoError>(e),
            },
    {
        let len = self.read_varint()? as usize;
        let end = match self.pos.checked_add(len) {
            Some(end) => end,
            None => return Err(ProtoError::LengthOverflow),
        };
        if end > self.data.len() {
            return Err(ProtoError::TruncatedLengthDelimited);
        }
        let value = &self.data[self.pos..end];
        self.pos = end;
        Ok(value)
    }

    fn skip_field(&mut self, wire_type: u8) -> (r: Result<(), ProtoError>)
        ensures
            final(self).data@ == old(self).data@,
            match spec_skip_field(old(self).data@, old(self).pos as int, wire_type) {
                Ok(p) => r == Ok::<(), ProtoError>(()) && final(self).pos == p,
                Err(e) => r == Err::<(), ProtoError>(e),
            },
    {
        if wire_type == WIRE_VARINT {
            self.read_varint()?;
        } else if wire_type == WIRE_64BIT {
            self.skip_bytes(8)?;
        } else if wire_type == WIRE_LEN {
            let len = self.read_varint()? as usize;
            self.skip_bytes(len)?;
        } else if wire_type == WIRE_32BIT {
            self.skip_bytes(4)?;
        } else {
            return Err(ProtoError::UnsupportedWireType(wire_type));
        }
        Ok(())
    }

    fn skip_bytes(&mut self, len: usize) -> (r: Result<(), ProtoError>)
        ensures
            final(self).data@ == old(self).data@,
            match spec_skip_bytes(old(self).data@, old(self).pos as int, len as int) {
                Ok(p) => r == Ok::<(), ProtoError>(()) && final(self).pos == p,
                Err(e) => r == Err::<(), ProtoError>(e),
            },
    {
        self.pos = match self.pos.checked_add(len) {
            Some(p) => p,
            None => return Err(ProtoError::SkipOverflow),
        };
        if self.pos > self.data.len() {
            return Err(ProtoError::TruncatedField);
        }
        Ok(())
    }
}

fn parse_timestamp(data: &[u8]) -> (r: Result<Time, ProtoError>)
    ensures
        r == spec_parse_timestamp(data@),
{
    let mut cursor = ProtoCursor::new(data);
    let mut sec: i64 = 0;
    let mut nanosec: i32 = 0;
    loop
        invariant
            cursor.data@ == data@,
            spec_timestamp_fields(data@, 0, 0, 0) == spec_timestamp_fields(
                data@,
                cursor.pos as int,
                sec,
                nanosec,
            ),
        ensures
            spec_timestamp_fields(data@, 0, 0, 0) == Ok::<(i64, i32), ProtoError>((sec, nanosec)),
        decreases data@.len() - cursor.pos,
    {
        let ghost pos = cursor.pos as int;
        proof {
            lemma_key_advances(data@, pos);
        }
        match cursor.read_key()? {
            None => break,
            Some((field, wire_type)) => {
                let ghost p = cursor.pos as int;
                proof {
                    lemma_varint_advances(data@, p, 0, 0);
                    lemma_skip_advances(data@, p, wire_type);
                }
                if field == 1 && wire_type == WIRE_VARINT {
                    let v = cursor.read_varint()?;
                    sec = #[verifier::truncate] (v as i64);
                } else if field == 2 && wire_type == WIRE_VARINT {
                    let v = cursor.read_varint()?;
                    nanosec = #[verifier::truncate] (v as i32);
                } else {
                    cursor.skip_field(wire_type)?;
                }
            },
        }
    }
    if sec < i32::MIN as i64 || sec > i32::MAX as i64 {
        return Err(ProtoError::SecondsOutOfRange);
    }
    if nanosec < 0 {
        return Err(ProtoError::NanosOutOfRange);
    }
    Ok(Time { sec: sec as i32, nanosec: nanosec as u32 })
}

/// The four shared fields of a CompressedImage or CompressedVideo message.
fn read_fields<'a>(data: &'a [u8]) -> (r: Result<(Time, &'a [u8], &'a [u8], &'a [u8]), ProtoError>)
    ensures
        match spec_fields(data@, 0, empty_fields()) {
            Ok(f) => r matches Ok((t, frame_id, value, format)) && t == f.stamp && frame_id@
                == f.frame_id && value@ == f.data && format@ == f.format,
            Err(e) => r matches Err(e2) && e2 == e,
        },
{
    let mut cursor = ProtoCursor::new(data);
    let mut stamp = Time { sec: 0, nanosec: 0 };
    let mut frame_id: &[u8] = &data[0..0];
    let mut value: &[u8] = &data[0..0];
    let mut format: &[u8] = &data[0..0];
    assert(frame_id@ =~= Seq::<u8>::empty());
    loop
        invariant
            cursor.data@ == data@,
            cursor.data == data,
            spec_fields(data@, 0, empty_fields()) == spec_fields(
                data@,
                cursor.pos as int,
                FoxgloveFields { stamp, frame_id: frame_id@, data: value@, format: format@ },
            ),
        ensures
            spec_fields(data@, 0, empty_fields()) == Ok::<FoxgloveFields, ProtoError>(
                FoxgloveFields { stamp, frame_id: frame_id@, data: value@, format: format@ },
            ),
        decreases data@.len() - cursor.pos,
    {
        let ghost pos = cursor.pos as int;
        proof {
            lemma_key_advances(data@, pos);
        }
        match cursor.read_key()? {
            None => break,
            Some((field, wire_type)) => {
                let ghost p = cursor.pos as int;
                proof {
                    lemma_len_delimited_bounds(data@, p);
                    lemma_skip_advances(data@, p, wire_type);
                }
                if wire_type == WIRE_LEN && 1 <= field && field <= 4 {
                    let v = cursor.read_len_delimited()?;
                    if field == 1 {
                        stamp = parse_timestamp(v)?;
                    } else if field == 2 {
                        frame_id = v;
                    } else if field == 3 {
                        value = v;
                    } else {
                        format = v;
                    }
                } else {
                    cursor.skip_field(wire_type)?;
                }
            },
        }
    }
    Ok((stamp, frame_id, value, format))
}

/// Parse protobuf-encoded foxglove.CompressedImage.
///
/// Fields used by Foxglove:
/// 1. timestamp: google.protobuf.Timestamp
/// 2. frame_id: string
/// 3. data: bytes
/// 4. format: string
pub fn parse_compressed_image(data: &[u8]) -> (r: Result<CompressedImage, ProtoError>)
    ensures
        match spec_parse_compressed_image(data@) {
            Ok(v) => r matches Ok(img) && img@ == v,
            Err(e) => r matches Err(e2) && e2 == e,
        },
{
    let (stamp, frame_id, value, format) = read_fields(data)?;
    if value.len() == 0 {
        return Err(ProtoError::EmptyData);
    }
    Ok(
        CompressedImage {
            header: Header { stamp, frame_id: lossy_string(frame_id) },
            format: lossy_string(format),
            data: slice_to_vec(value),
        },
    )
}

/// The timestamp of a protobuf-encoded foxglove.CompressedImage: its first
/// length-delimited field 1.
pub fn parse_compressed_image_timestamp(data: &[u8]) -> (r: Result<Time, ProtoError>)
    ensures
        r == spec_first_timestamp(data@, 0),
{
    first_timestamp(data)
}

/// Parse protobuf-encoded foxglove.CompressedVideo.
///
/// Foxglove fields:
/// 1. timestamp: google.protobuf.Timestamp
/// 2. frame_id: string
/// 3. data: bytes
/// 4. format: string
pub fn parse_compressed_video(data: &[u8]) -> (r: Result<CompressedVideo, ProtoError>)
    ensures
        match spec_parse_compressed_video(data@) {
            Ok(v) => r matches Ok(video) && video@ == v,
            Err(e) => r matches Err(e2) && e2 == e,
        },
{
    let (timestamp, frame_id, value, format) = read_fields(data)?;
    if value.len() == 0 {
        return Err(ProtoError::EmptyData);
    }
    let format = lossy_string(format);
    if str_is_blank(format.as_str()) {
        return Err(ProtoError::EmptyFormat);
    }
    Ok(CompressedVideo { timestamp, frame_id: lossy_string(frame_id), data: slice_to_vec(value), format })
}

/// The timestamp of a protobuf-encoded foxglove.CompressedVideo: its first
/// length-delimited field 1.
pub fn parse_compressed_video_timestamp(data: &[u8]) -> (r: Result<Time, ProtoError>)
    ensures
        r == spec_first_timestamp(data@, 0),
{
    first_timestamp(data)
}

fn first_timestamp(data: &[u8]) -> (r: Result<Time, ProtoError>)
    ensures
        r == spec_first_timestamp(data@, 0),
{
    let mut cursor = ProtoCursor::new(data);
    loop
        invariant
            cursor.data@ == data@,
            cursor.data == data,
            spec_first_timestamp(data@, 0) == spec_first_timestamp(data@, cursor.pos as int),
        decreases data@.len() - cursor.pos,
    {
        let ghost pos = cursor.pos as int;
        proof {
            lemma_key_advances(data@, pos);
        }
        match cursor.read_key()? {
            None => return Err(ProtoError::MissingTimestamp),
            Some((field, wire_type)) => {
                let ghost p = cursor.pos as int;
                proof {
                    lemma_skip_advances(data@, p, wire_type);
                }
                if field == 1 && wire_type == WIRE_LEN {
                    let v = cursor.read_len_delimited()?;
                    return parse_timestamp(v);
                }
                cursor.skip_field(wire_type)?;
            },
        }
    }
}

} // verus!
