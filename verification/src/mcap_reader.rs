//! Reading video frames and metadata out of whole MCAP recordings.

use vstd::prelude::*;
use vstd::utf8::encode_utf8;
use crate::ros2_msgs::{
    compressed_image_bytes, image_bytes, law_compressed_image_roundtrip, law_image_roundtrip,
    CompressedImageView, ImageView, parse_camera_info, parse_compressed_image, parse_image, parse_tf_message, spec_parse_camera_info,
    spec_parse_compressed_image, spec_parse_image, spec_parse_tf_message, CameraInfo,
    CameraInfoView, CdrError, ImageMessageType, MetadataMessageType, TFMessage,
    TransformStampedView, Time,
};
use crate::schema::{
    spec_classify_metadata, spec_classify_video, MetadataMessageKind, VideoMessageKind,
};
use crate::sorting::{lemma_to_multiset_map, sort_by_key, sorted_by_key, KeyOrder};
use crate::text::{
    has_substring, lemma_lex_total, lemma_lex_transitive, lex_le,
    str_is, str_le,
};

verus! {

/// Information about a video topic in an MCAP file
#[derive(Debug, Clone)]
pub struct TopicInfo {
    pub name: String,
    pub schema_name: String,
    pub message_count: usize,
    pub message_type: Option<ImageMessageType>,
}

pub struct TopicInfoView {
    pub name: Seq<char>,
    pub schema_name: Seq<char>,
    pub message_count: usize,
    pub message_type: Option<ImageMessageType>,
}

impl View for TopicInfo {
    type V = TopicInfoView;

    open spec fn view(&self) -> TopicInfoView {
        TopicInfoView {
            name: self.name@,
            schema_name: self.schema_name@,
            message_count: self.message_count,
            message_type: self.message_type,
        }
    }
}

/// Information about a metadata topic in an MCAP file
#[derive(Debug, Clone)]
pub struct MetadataTopicInfo {
    pub name: String,
    pub schema_name: String,
    pub message_count: usize,
    pub message_type: MetadataMessageType,
}

pub struct MetadataTopicInfoView {
    pub name: Seq<char>,
    pub schema_name: Seq<char>,
    pub message_count: usize,
    pub message_type: MetadataMessageType,
}

impl View for MetadataTopicInfo {
    type V = MetadataTopicInfoView;

    open spec fn view(&self) -> MetadataTopicInfoView {
        MetadataTopicInfoView {
            name: self.name@,
            schema_name: self.schema_name@,
            message_count: self.message_count,
            message_type: self.message_type,
        }
    }
}

/// A video frame extracted from MCAP. Its Unix timestamp is that of `stamp`
/// (seconds plus nanoseconds).
#[derive(Debug, Clone)]
pub struct VideoFrame {
    pub stamp: Time,
    pub sequence: u64,
    pub data: FrameData,
}

/// Frame data can be either raw or compressed
#[derive(Debug, Clone)]
pub enum FrameData {
    Raw {
        width: u32,
        height: u32,
        encoding: String,
        step: u32,  // Row stride in bytes
        data: Vec<u8>,
    },
    Compressed { format: String, data: Vec<u8> },
}

pub enum FrameDataView {
    Raw { width: u32, height: u32, encoding: Seq<char>, step: u32, data: Seq<u8> },
    Compressed { format: Seq<char>, data: Seq<u8> },
}

impl View for FrameData {
    type V = FrameDataView;

    open spec fn view(&self) -> FrameDataView {
        match self {
            FrameData::Raw { width, height, encoding, step, data } => FrameDataView::Raw {
                width: *width,
                height: *height,
                encoding: encoding@,
                step: *step,
                data: data@,
            },
            FrameData::Compressed { format, data } => FrameDataView::Compressed {
                format: format@,
                data: data@,
            },
        }
    }
}

pub struct VideoFrameView {
    pub stamp: Time,
    pub sequence: u64,
    pub data: FrameDataView,
}

impl View for VideoFrame {
    type V = VideoFrameView;

    open spec fn view(&self) -> VideoFrameView {
        VideoFrameView { stamp: self.stamp, sequence: self.sequence, data: self.data@ }
    }
}

/// Frame count and time range from a quick topic scan (no payload parsing)
#[derive(Debug, Clone, Copy, PartialEq, Eq, Structural)]
pub struct FrameScanInfo {
    pub count: usize,
    pub first_log_time_ns: u64,
    pub last_log_time_ns: u64,
}

// ---- The message stream of a recording ----

/// One message of an MCAP recording as the reader hands it on: the topic of
/// its channel, the name of the channel's schema where it has one, its log
/// time and its payload.
#[derive(Debug, Clone)]
pub struct McapMessage {
    pub topic: String,
    pub schema_name: Option<String>,
    pub log_time: u64,
    pub data: Vec<u8>,
}

pub struct McapMessageView {
    pub topic: Seq<char>,
    pub schema_name: Option<Seq<char>>,
    pub log_time: u64,
    pub data: Seq<u8>,
}

impl View for McapMessage {
    type V = McapMessageView;

    open spec fn view(&self) -> McapMessageView {
        McapMessageView {
            topic: self.topic@,
            schema_name: match &self.schema_name {
                Some(s) => Some(s@),
                None => None,
            },
            log_time: self.log_time,
            data: self.data@,
        }
    }
}

/// A stream of items, each a message or (`None`) a record that could not be
/// read as one.
pub open spec fn stream_view(items: Seq<Option<McapMessage>>) -> Seq<Option<McapMessageView>> {
    items.map_values(|m: Option<McapMessage>| match m {
        Some(m) => Some(m@),
        None => None,
    })
}

/// Every payload of the stream is small enough to be decoded.
pub open spec fn payloads_fit(items: Seq<Option<McapMessage>>) -> bool {
    forall|i: int|
        0 <= i < items.len() && #[trigger] items[i] is Some ==> items[i]->0.data.len()
            <= isize::MAX
}

#[verifier::external_type_specification]
#[verifier::external_body]
pub struct ExMcapError(mcap::McapError);

/// The items that `mcap::MessageStream` yields over a whole recording, in
/// order (`None` for each item it yields as an error), or `None` where
/// `MessageStream::new` refuses the recording.
pub uninterp spec fn mcap_stream(file: Seq<u8>) -> Option<Seq<Option<McapMessageView>>>;

/// `mcap::MessageStream::new(file)`, iterated to its end. Each message is
/// handed on as its channel's topic, its schema's name, its log time and
/// its payload; each item that is an error, as `None`.
#[verifier::external_body]
fn read_message_stream(file: &[u8]) -> (r: Result<Vec<Option<McapMessage>>, mcap::McapError>)
    ensures
        match mcap_stream(file@) {
            Some(items) => r matches Ok(v) && stream_view(v@) == items,
            None => r is Err,
        },
        r matches Ok(v) ==> payloads_fit(v@),
{
    let stream = mcap::MessageStream::new(file)?;
    let mut items = Vec::new();
    for item in stream {
        items.push(match item {
            Ok(m) => Some(McapMessage {
                topic: m.channel.topic.clone(),
                schema_name: m.channel.schema.as_ref().map(|s| s.name.clone()),
                log_time: m.log_time,
                data: m.data.into_owned(),
            }),
            Err(_) => None,
        });
    }
    Ok(items)
}

/// Why reading frames or metadata from a recording failed.
#[derive(Debug)]
pub enum ReaderError {
    /// The recording could not be read as MCAP.
    Mcap(mcap::McapError),
    /// The topic's first message has a schema that names no image type.
    NotImageTopic { topic: String, schema_name: String },
    /// A message of the topic could not be decoded.
    Cdr(CdrError),
    /// The topic has no messages.
    NoFrames { topic: String },
    /// The camera-info topic has no messages.
    NoCameraInfo { topic: String },
    /// The transform topic has no messages.
    NoTfMessages { topic: String },
}

pub enum ReaderErrorView {
    Mcap,
    NotImageTopic { topic: Seq<char>, schema_name: Seq<char> },
    Cdr(CdrError),
    NoFrames { topic: Seq<char> },
    NoCameraInfo { topic: Seq<char> },
    NoTfMessages { topic: Seq<char> },
}

impl View for ReaderError {
    type V = ReaderErrorView;

    open spec fn view(&self) -> ReaderErrorView {
        match self {
            ReaderError::Mcap(_) => ReaderErrorView::Mcap,
            ReaderError::NotImageTopic { topic, schema_name } => ReaderErrorView::NotImageTopic {
                topic: topic@,
                schema_name: schema_name@,
            },
            ReaderError::Cdr(e) => ReaderErrorView::Cdr(*e),
            ReaderError::NoFrames { topic } => ReaderErrorView::NoFrames { topic: topic@ },
            ReaderError::NoCameraInfo { topic } => ReaderErrorView::NoCameraInfo { topic: topic@ },
            ReaderError::NoTfMessages { topic } => ReaderErrorView::NoTfMessages { topic: topic@ },
        }
    }
}

/// The schema name of a message, empty where its channel has no schema.
pub open spec fn schema_of(m: McapMessageView) -> Seq<char> {
    match m.schema_name {
        Some(s) => s,
        None => Seq::empty(),
    }
}

fn schema_str(m: &McapMessage) -> (r: &str)
    ensures
        r@ == schema_of(m@),
{
    match &m.schema_name {
        Some(s) => s.as_str(),
        None => {
            proof {
                reveal_strlit("");
            }
            ""
        },
    }
}

/// The image type a schema name names (`ImageMessageType::from_schema_name`).
pub open spec fn spec_image_kind(name: Seq<char>) -> Option<ImageMessageType> {
    if has_substring(name, "CompressedImage"@) {
        Some(ImageMessageType::CompressedImage)
    } else if has_substring(name, "Image"@) {
        Some(ImageMessageType::Image)
    } else {
        None
    }
}

/// The metadata type a schema name names (`MetadataMessageType::from_schema_name`).
pub open spec fn spec_metadata_kind(name: Seq<char>) -> Option<MetadataMessageType> {
    if has_substring(name, "CameraInfo"@) {
        Some(MetadataMessageType::CameraInfo)
    } else if has_substring(name, "TFMessage"@) {
        Some(MetadataMessageType::TFMessage)
    } else {
        None
    }
}

/// `pat` occurs in `s` at position `i`.
proof fn lemma_occurs_at(s: Seq<char>, pat: Seq<char>, i: int)
    requires
        0 <= i,
        i + pat.len() <= s.len(),
        forall|k: int| 0 <= k < pat.len() ==> s[i + k] == pat[k],
    ensures
        has_substring(s, pat),
{
    assert(s.subrange(i, i + pat.len()) =~= pat);
}

/// A pattern with a character that `s` lacks (at position `j`) does not
/// occur in `s`.
proof fn lemma_absent(s: Seq<char>, pat: Seq<char>, j: int)
    requires
        0 <= j < pat.len(),
        forall|k: int| 0 <= k < s.len() ==> s[k] != pat[j],
    ensures
        !has_substring(s, pat),
{
    if has_substring(s, pat) {
        let i = choose|i: int|
            0 <= i && i + pat.len() <= s.len() && #[trigger] s.subrange(i, i + pat.len()) == pat;
        assert(s.subrange(i, i + pat.len())[j] == s[i + j]);
    }
}

/// The image type that the substring rule finds in a schema name agrees
/// with the exact classification wherever that names a still-image kind
/// (and finds none in a Foxglove video schema); likewise for metadata.
pub proof fn law_schema_classifications_agree(
    name: Seq<char>,
    schema_encoding: Seq<char>,
    message_encoding: Seq<char>,
)
    ensures
        spec_classify_video(name, schema_encoding, message_encoding) matches Some(k)
            ==> spec_image_kind(name) == match k {
            VideoMessageKind::Ros2Image => Some(ImageMessageType::Image),
            VideoMessageKind::Ros2CompressedImage => Some(ImageMessageType::CompressedImage),
            VideoMessageKind::FoxgloveCompressedImageProto => Some(
                ImageMessageType::CompressedImage,
            ),
            VideoMessageKind::FoxgloveCompressedVideoProto => None,
        },
        spec_classify_metadata(name, schema_encoding, message_encoding) matches Some(k)
            ==> spec_metadata_kind(name) == Some(
            match k {
                MetadataMessageKind::CameraInfo => MetadataMessageType::CameraInfo,
                MetadataMessageKind::TFMessage => MetadataMessageType::TFMessage,
            },
        ),
{
    reveal_strlit("Image");
    reveal_strlit("CompressedImage");
    reveal_strlit("CameraInfo");
    reveal_strlit("TFMessage");
    reveal_strlit("sensor_msgs/msg/Image");
    reveal_strlit("sensor_msgs/Image");
    reveal_strlit("sensor_msgs/msg/CompressedImage");
    reveal_strlit("sensor_msgs/CompressedImage");
    reveal_strlit("foxglove.CompressedImage");
    reveal_strlit("foxglove.CompressedVideo");
    reveal_strlit("sensor_msgs/msg/CameraInfo");
    reveal_strlit("sensor_msgs/CameraInfo");
    reveal_strlit("tf2_msgs/msg/TFMessage");
    reveal_strlit("tf2_msgs/TFMessage");
    if name == "sensor_msgs/msg/Image"@ {
        lemma_absent(name, "CompressedImage"@, 0);
        lemma_occurs_at(name, "Image"@, 16);
    } else if name == "sensor_msgs/Image"@ {
        lemma_absent(name, "CompressedImage"@, 0);
        lemma_occurs_at(name, "Image"@, 12);
    } else if name == "sensor_msgs/msg/CompressedImage"@ {
        lemma_occurs_at(name, "CompressedImage"@, 16);
    } else if name == "sensor_msgs/CompressedImage"@ {
        lemma_occurs_at(name, "CompressedImage"@, 12);
    } else if name == "foxglove.CompressedImage"@ {
        lemma_occurs_at(name, "CompressedImage"@, 9);
    } else if name == "foxglove.CompressedVideo"@ {
        lemma_absent(name, "Image"@, 0);
        lemma_absent(name, "CompressedImage"@, 10);
    }
    if name == "sensor_msgs/msg/CameraInfo"@ {
        lemma_occurs_at(name, "CameraInfo"@, 16);
    } else if name == "sensor_msgs/CameraInfo"@ {
        lemma_occurs_at(name, "CameraInfo"@, 12);
    } else if name == "tf2_msgs/msg/TFMessage"@ {
        lemma_absent(name, "CameraInfo"@, 0);
        lemma_occurs_at(name, "TFMessage"@, 13);
    } else if name == "tf2_msgs/TFMessage"@ {
        lemma_absent(name, "CameraInfo"@, 0);
        lemma_occurs_at(name, "TFMessage"@, 9);
    }
}

// ---- Frames ----

/// The frame that a payload of the given image type decodes to, numbered
/// `sequence`.
#[verifier::opaque]
pub open spec fn spec_frame_of(kind: ImageMessageType, data: Seq<u8>, sequence: u64) -> Result<
    VideoFrameView,
    CdrError,
> {
    match kind {
        ImageMessageType::Image => match spec_parse_image(data) {
            Ok(img) => Ok(
                VideoFrameView {
                    stamp: img.header.stamp,
                    sequence,
                    data: FrameDataView::Raw {
                        width: img.width,
                        height: img.height,
                        encoding: img.encoding,
                        step: img.step,
                        data: img.data,
                    },
                },
            ),
            Err(e) => Err(e),
        },
        ImageMessageType::CompressedImage => match spec_parse_compressed_image(data) {
            Ok(img) => Ok(
                VideoFrameView {
                    stamp: img.header.stamp,
                    sequence,
                    data: FrameDataView::Compressed { format: img.format, data: img.data },
                },
            ),
            Err(e) => Err(e),
        },
    }
}

/// A frame decoded from an Image payload as ROS2 writes it holds that
/// image's stamp, width, height (not swapped), encoding, step and pixels as a
/// raw frame; one decoded from a CompressedImage payload holds its stamp,
/// format and bytes as a compressed frame.
pub proof fn law_frame_of_written_images(img: ImageView, cimg: CompressedImageView, sequence: u64)
    requires
        encode_utf8(img.header.frame_id).len() + 1 <= u32::MAX,
        encode_utf8(img.encoding).len() + 1 <= u32::MAX,
        img.data.len() <= u32::MAX,
        encode_utf8(cimg.header.frame_id).len() + 1 <= u32::MAX,
        encode_utf8(cimg.format).len() + 1 <= u32::MAX,
        cimg.data.len() <= u32::MAX,
    ensures
        spec_frame_of(ImageMessageType::Image, image_bytes(img), sequence) == Ok::<
            VideoFrameView,
            CdrError,
        >(
            VideoFrameView {
                stamp: img.header.stamp,
                sequence,
                data: FrameDataView::Raw {
                    width: img.width,
                    height: img.height,
                    encoding: img.encoding,
                    step: img.step,
                    data: img.data,
                },
            },
        ),
        spec_frame_of(ImageMessageType::CompressedImage, compressed_image_bytes(cimg), sequence)
            == Ok::<VideoFrameView, CdrError>(
            VideoFrameView {
                stamp: cimg.header.stamp,
                sequence,
                data: FrameDataView::Compressed { format: cimg.format, data: cimg.data },
            },
        ),
{
    reveal(spec_frame_of);
    law_image_roundtrip(img);
    law_compressed_image_roundtrip(cimg);
}

/// Decodes a payload of the given image type into a frame numbered `sequence`.
pub fn frame_of(kind: ImageMessageType, data: &[u8], sequence: u64) -> (r: Result<
    VideoFrame,
    CdrError,
>)
    requires
        data.len() <= isize::MAX,
    ensures
        match spec_frame_of(kind, data@, sequence) {
            Ok(f) => r matches Ok(frame) && frame@ == f,
            Err(e) => r == Err::<VideoFrame, CdrError>(e),
        },
{
    reveal(spec_frame_of);
    match kind {
        ImageMessageType::Image => {
            let img = parse_image(data)?;
            Ok(
                VideoFrame {
                    stamp: img.header.stamp,
                    sequence,
                    data: FrameData::Raw {
                        width: img.width,
                        height: img.height,
                        encoding: img.encoding,
                        step: img.step,
                        data: img.data,
                    },
                },
            )
        },
        ImageMessageType::CompressedImage => {
            let img = parse_compressed_image(data)?;
            Ok(
                VideoFrame {
                    stamp: img.header.stamp,
                    sequence,
                    data: FrameData::Compressed { format: img.format, data: img.data },
                },
            )
        },
    }
}

/// What one stream item contributes to the frames of `topic`, given the image
/// type fixed so far (by the topic's first message) and the number of the
/// next frame: nothing (an unreadable item, or another topic), a frame
/// together with the image type now fixed, or an error.
pub open spec fn frame_step(
    item: Option<McapMessageView>,
    topic: Seq<char>,
    kind: Option<ImageMessageType>,
    sequence: u64,
) -> Result<Option<(ImageMessageType, VideoFrameView)>, ReaderErrorView> {
    match item {
        None => Ok(None),
        Some(m) => if m.topic != topic {
            Ok(None)
        } else {
            let k = match kind {
                Some(k) => Some(k),
                None => spec_image_kind(schema_of(m)),
            };
            match k {
                None => Err(
                    ReaderErrorView::NotImageTopic { topic, schema_name: schema_of(m) },
                ),
                Some(k) => match spec_frame_of(k, m.data, sequence) {
                    Ok(f) => Ok(Some((k, f))),
                    Err(e) => Err(ReaderErrorView::Cdr(e)),
                },
            }
        },
    }
}

/// One step of frame extraction: see `frame_step`.
pub fn next_frame(
    item: &Option<McapMessage>,
    topic: &str,
    kind: Option<ImageMessageType>,
    sequence: u64,
) -> (r: Result<Option<(ImageMessageType, VideoFrame)>, ReaderError>)
    requires
        item matches Some(m) ==> m.data.len() <= isize::MAX,
    ensures
        match frame_step(
            match item {
                Some(m) => Some(m@),
                None => None,
            },
            topic@,
            kind,
            sequence,
        ) {
            Ok(None) => r matches Ok(None),
            Ok(Some((k, f))) => r matches Ok(Some((k2, frame))) && k2 == k && frame@ == f,
            Err(e) => r matches Err(e2) && e2@ == e,
        },
{
    match item {
        None => Ok(None),
        Some(m) => {
            if !str_is(m.topic.as_str(), topic) {
                return Ok(None);
            }
            let k = match kind {
                Some(k) => k,
                None => {
                    let schema = schema_str(m);
                    match ImageMessageType::from_schema_name(schema) {
                        Some(k) => k,
                        None => {
                            return Err(
                                ReaderError::NotImageTopic {
                                    topic: topic.to_string(),
                                    schema_name: schema.to_string(),
                                },
                            );
                        },
                    }
                },
            };
            match frame_of(k, m.data.as_slice(), sequence) {
                Ok(f) => Ok(Some((k, f))),
                Err(e) => Err(ReaderError::Cdr(e)),
            }
        },
    }
}

/// The frames of `topic` among the first `n` stream items, in stream order,
/// numbered from 0, with the image type that the topic's first message
/// fixed; or the first error met.
pub open spec fn scan_frames(items: Seq<Option<McapMessageView>>, topic: Seq<char>, n: nat) -> Result<
    (Option<ImageMessageType>, Seq<VideoFrameView>),
    ReaderErrorView,
>
    decreases n,
{
    if n == 0 {
        Ok((None, Seq::empty()))
    } else {
        match scan_frames(items, topic, (n - 1) as nat) {
            Err(e) => Err(e),
            Ok((kind, frames)) => match frame_step(items[n - 1], topic, kind, frames.len() as u64) {
                Err(e) => Err(e),
                Ok(None) => Ok((kind, frames)),
                Ok(Some((k, f))) => Ok((Some(k), frames.push(f))),
            },
        }
    }
}

/// Once the scan has met an error, it stays at that error.
pub proof fn lemma_scan_frames_stops(
    items: Seq<Option<McapMessageView>>,
    topic: Seq<char>,
    n: nat,
    m: nat,
)
    requires
        n <= m,
        scan_frames(items, topic, n) is Err,
    ensures
        scan_frames(items, topic, m) == scan_frames(items, topic, n),
    decreases m - n,
{
    if n < m {
        lemma_scan_frames_stops(items, topic, n, (m - 1) as nat);
    }
}

/// The scan of the first `n` items depends on those items alone.
pub proof fn lemma_scan_frames_prefix(
    a: Seq<Option<McapMessageView>>,
    b: Seq<Option<McapMessageView>>,
    topic: Seq<char>,
    n: nat,
)
    requires
        n <= a.len(),
        n <= b.len(),
        forall|i: int| 0 <= i < n ==> a[i] == b[i],
    ensures
        scan_frames(a, topic, n) == scan_frames(b, topic, n),
    decreases n,
{
    if n > 0 {
        lemma_scan_frames_prefix(a, b, topic, (n - 1) as nat);
    }
}

/// The Unix time of a stamp in nanoseconds.
pub open spec fn stamp_nanos(t: Time) -> int {
    t.sec * 1_000_000_000 + t.nanosec
}

fn stamp_nanos_exec(t: Time) -> (r: i64)
    ensures
        r == stamp_nanos(t),
{
    (t.sec as i64) * 1_000_000_000 + (t.nanosec as i64)
}

/// Frames are ordered by time, and frames of the same time by their number
/// (so that sorting keeps stream order among equal times).
impl KeyOrder for VideoFrame {
    open spec fn key_le(a: Self, b: Self) -> bool {
        stamp_nanos(a.stamp) < stamp_nanos(b.stamp) || (stamp_nanos(a.stamp) == stamp_nanos(
            b.stamp,
        ) && a.sequence <= b.sequence)
    }

    fn key_le_exec(&self, other: &Self) -> (r: bool) {
        let a = stamp_nanos_exec(self.stamp);
        let b = stamp_nanos_exec(other.stamp);
        a < b || (a == b && self.sequence <= other.sequence)
    }

    proof fn lemma_key_total(a: Self, b: Self) {
    }

    proof fn lemma_key_transitive(a: Self, b: Self, c: Self) {
    }
}

/// The time (in nanoseconds) and number of a frame: what frames are ordered by.
pub open spec fn frame_key(f: VideoFrameView) -> (int, int) {
    (stamp_nanos(f.stamp), f.sequence as int)
}

/// Lexicographic order on pairs of integers.
pub open spec fn key_pair_le(p: (int, int), q: (int, int)) -> bool {
    p.0 < q.0 || (p.0 == q.0 && p.1 <= q.1)
}

pub open spec fn frames_view(frames: Seq<VideoFrame>) -> Seq<VideoFrameView> {
    frames.map_values(|f: VideoFrame| f@)
}

/// What `extract_frames` gives for a stream: the topic's frames sorted by
/// time (see `scan_frames`, and the order on `VideoFrame`), an error where
/// the scan stops at one, or `NoFrames` where the topic has none.
pub open spec fn frames_extracted(
    items: Seq<Option<McapMessageView>>,
    topic: Seq<char>,
    r: Result<Seq<VideoFrame>, ReaderErrorView>,
) -> bool {
    match scan_frames(items, topic, items.len()) {
        Err(e) => r == Err::<Seq<VideoFrame>, ReaderErrorView>(e),
        Ok((_, frames)) => if frames.len() == 0 {
            r == Err::<Seq<VideoFrame>, ReaderErrorView>(ReaderErrorView::NoFrames { topic })
        } else {
            r matches Ok(v) && frames_view(v).to_multiset() == frames.to_multiset()
                && sorted_by_key(v)
        },
    }
}

/// The frames that `extract_frames` returns are in order of real time: a
/// frame's seconds and nanoseconds, read as one count of nanoseconds, never
/// exceed those of a later frame; frames of the same time keep their stream
/// order (their numbers increase).
pub proof fn law_extracted_frames_in_time_order(
    items: Seq<Option<McapMessageView>>,
    topic: Seq<char>,
    v: Seq<VideoFrame>,
)
    requires
        frames_extracted(items, topic, Ok::<Seq<VideoFrame>, ReaderErrorView>(v)),
    ensures
        forall|i: int, j: int|
            0 <= i < j < v.len() ==> {
                let a = (#[trigger] v[i]).stamp;
                let b = (#[trigger] v[j]).stamp;
                &&& a.sec * 1_000_000_000 + a.nanosec <= b.sec * 1_000_000_000 + b.nanosec
                &&& (a.sec * 1_000_000_000 + a.nanosec == b.sec * 1_000_000_000 + b.nanosec
                    ==> v[i].sequence <= v[j].sequence)
            },
{
    assert forall|i: int, j: int| 0 <= i < j < v.len() implies {
        let a = (#[trigger] v[i]).stamp;
        let b = (#[trigger] v[j]).stamp;
        &&& a.sec * 1_000_000_000 + a.nanosec <= b.sec * 1_000_000_000 + b.nanosec
        &&& (a.sec * 1_000_000_000 + a.nanosec == b.sec * 1_000_000_000 + b.nanosec
            ==> v[i].sequence <= v[j].sequence)
    } by {
        assert(VideoFrame::key_le(v[i], v[j]));
    }
}

/// The frames of `topic` in a message stream, sorted by time.
pub fn extract_frames_from(items: &[Option<McapMessage>], topic: &str) -> (r: Result<
    Vec<VideoFrame>,
    ReaderError,
>)
    requires
        payloads_fit(items@),
    ensures
        frames_extracted(
            stream_view(items@),
            topic@,
            match r {
                Ok(v) => Ok(v@),
                Err(e) => Err(e@),
            },
        ),
{
    let ghost sv = stream_view(items@);
    let mut frames: Vec<VideoFrame> = Vec::new();
    let mut kind: Option<ImageMessageType> = None;
    let mut i: usize = 0;
    assert(frames_view(frames@) =~= Seq::<VideoFrameView>::empty());
    while i < items.len()
        invariant
            sv == stream_view(items@),
            sv.len() == items.len(),
            payloads_fit(items@),
            i <= items.len(),
            frames.len() <= i,
            scan_frames(sv, topic@, i as nat) == Ok::<_, ReaderErrorView>(
                (kind, frames_view(frames@)),
            ),
        decreases items.len() - i,
    {
        let ghost before = frames@;
        proof {
            assert(sv[i as int] == match items@[i as int] {
                Some(m) => Some(m@),
                None => None,
            });
        }
        match next_frame(&items[i], topic, kind, frames.len() as u64) {
            Err(e) => {
                proof {
                    lemma_scan_frames_stops(sv, topic@, (i + 1) as nat, items.len() as nat);
                }
                return Err(e);
            },
            Ok(None) => {},
            Ok(Some((k, f))) => {
                kind = Some(k);
                frames.push(f);
                proof {
                    assert(frames_view(frames@) =~= frames_view(before).push(f@));
                }
            },
        }
        i = i + 1;
    }
    proof {
        assert(sv.len() == items.len());
    }
    if frames.len() == 0 {
        return Err(ReaderError::NoFrames { topic: topic.to_string() });
    }
    let ghost unsorted = frames@;
    sort_by_key(&mut frames);
    proof {
        lemma_to_multiset_map(frames@, unsorted, |f: VideoFrame| f@);
    }
    Ok(frames)
}

// ---- Scans over the messages of one topic ----

/// The item is a readable message of `topic`.
pub open spec fn on_topic(item: Option<McapMessageView>, topic: Seq<char>) -> bool {
    item matches Some(m) && m.topic == topic
}

/// The number of messages of `topic` among the first `n` items.
pub open spec fn count_on_topic(items: Seq<Option<McapMessageView>>, topic: Seq<char>, n: nat) -> nat
    decreases n,
{
    if n == 0 {
        0
    } else {
        count_on_topic(items, topic, (n - 1) as nat) + if on_topic(items[n - 1], topic) {
            1nat
        } else {
            0nat
        }
    }
}

/// The least log time of a message of `topic` among the first `n` items
/// (`u64::MAX` where there is none).
pub open spec fn first_log_time(items: Seq<Option<McapMessageView>>, topic: Seq<char>, n: nat) -> u64
    decreases n,
{
    if n == 0 {
        u64::MAX
    } else {
        let t = first_log_time(items, topic, (n - 1) as nat);
        if on_topic(items[n - 1], topic) && items[n - 1]->0.log_time < t {
            items[n - 1]->0.log_time
        } else {
            t
        }
    }
}

/// The greatest log time of a message of `topic` among the first `n` items
/// (0 where there is none).
pub open spec fn last_log_time(items: Seq<Option<McapMessageView>>, topic: Seq<char>, n: nat) -> u64
    decreases n,
{
    if n == 0 {
        0
    } else {
        let t = last_log_time(items, topic, (n - 1) as nat);
        if on_topic(items[n - 1], topic) && items[n - 1]->0.log_time > t {
            items[n - 1]->0.log_time
        } else {
            t
        }
    }
}

/// The count and time range of the messages of `topic` in a message stream,
/// read from the records alone, without decoding any payload.
pub fn scan_topic_in(items: &[Option<McapMessage>], topic: &str) -> (r: Result<
    FrameScanInfo,
    ReaderError,
>)
    ensures
        ({
            let sv = stream_view(items@);
            let n = count_on_topic(sv, topic@, items.len() as nat);
            if n == 0 {
                r matches Err(e) && e@ == ReaderErrorView::NoFrames { topic: topic@ }
            } else {
                r == Ok::<FrameScanInfo, ReaderError>(
                    FrameScanInfo {
                        count: n as usize,
                        first_log_time_ns: first_log_time(sv, topic@, items.len() as nat),
                        last_log_time_ns: last_log_time(sv, topic@, items.len() as nat),
                    },
                )
            }
        }),
{
    let ghost sv = stream_view(items@);
    let mut count: usize = 0;
    let mut first_ts: u64 = u64::MAX;
    let mut last_ts: u64 = 0;
    let mut i: usize = 0;
    while i < items.len()
        invariant
            sv == stream_view(items@),
            i <= items.len(),
            count == count_on_topic(sv, topic@, i as nat),
            count <= i,
            first_ts == first_log_time(sv, topic@, i as nat),
            last_ts == last_log_time(sv, topic@, i as nat),
        decreases items.len() - i,
    {
        proof {
            assert(sv[i as int] == match items@[i as int] {
                Some(m) => Some(m@),
                None => None,
            });
        }
        if let Some(m) = &items[i] {
            if str_is(m.topic.as_str(), topic) {
                count = count + 1;
                let t = m.log_time;
                if t < first_ts {
                    first_ts = t;
                }
                if t > last_ts {
                    last_ts = t;
                }
            }
        }
        i = i + 1;
    }
    if count == 0 {
        return Err(ReaderError::NoFrames { topic: topic.to_string() });
    }
    Ok(FrameScanInfo { count, first_log_time_ns: first_ts, last_log_time_ns: last_ts })
}

/// The first message of `topic` among the first `n` items.
pub open spec fn first_on_topic(items: Seq<Option<McapMessageView>>, topic: Seq<char>, n: nat) -> Option<
    McapMessageView,
>
    decreases n,
{
    if n == 0 {
        None
    } else {
        match first_on_topic(items, topic, (n - 1) as nat) {
            Some(m) => Some(m),
            None => if on_topic(items[n - 1], topic) {
                items[n - 1]
            } else {
                None
            },
        }
    }
}

/// The position of the first message of `topic` in a message stream.
pub fn first_index_on_topic(items: &[Option<McapMessage>], topic: &str) -> (r: Option<usize>)
    ensures
        match r {
            Some(i) => i < items.len() && (items@[i as int] matches Some(m) && first_on_topic(
                stream_view(items@),
                topic@,
                items.len() as nat,
            ) == Some(m@)),
            None => first_on_topic(stream_view(items@), topic@, items.len() as nat) is None,
        },
{
    let ghost sv = stream_view(items@);
    let mut i: usize = 0;
    while i < items.len()
        invariant
            sv == stream_view(items@),
            i <= items.len(),
            first_on_topic(sv, topic@, i as nat) is None,
        decreases items.len() - i,
    {
        proof {
            assert(sv[i as int] == match items@[i as int] {
                Some(m) => Some(m@),
                None => None,
            });
        }
        if let Some(m) = &items[i] {
            if str_is(m.topic.as_str(), topic) {
                proof {
                    lemma_first_on_topic_stays(sv, topic@, (i + 1) as nat, items.len() as nat);
                }
                return Some(i);
            }
        }
        i = i + 1;
    }
    None
}

/// Once found, the first message of a topic stays the first.
pub proof fn lemma_first_on_topic_stays(
    items: Seq<Option<McapMessageView>>,
    topic: Seq<char>,
    n: nat,
    m: nat,
)
    requires
        n <= m,
        first_on_topic(items, topic, n) is Some,
    ensures
        first_on_topic(items, topic, m) == first_on_topic(items, topic, n),
    decreases m - n,
{
    if n < m {
        lemma_first_on_topic_stays(items, topic, n, (m - 1) as nat);
    }
}

/// What `extract_first_frame` gives for a stream: the first message of the
/// topic, decoded by the image type that its own schema names, as frame 0.
pub open spec fn first_frame(items: Seq<Option<McapMessageView>>, topic: Seq<char>) -> Result<
    VideoFrameView,
    ReaderErrorView,
> {
    match first_on_topic(items, topic, items.len()) {
        None => Err(ReaderErrorView::NoFrames { topic }),
        Some(m) => match spec_image_kind(schema_of(m)) {
            None => Err(ReaderErrorView::NotImageTopic { topic, schema_name: schema_of(m) }),
            Some(k) => match spec_frame_of(k, m.data, 0) {
                Ok(f) => Ok(f),
                Err(e) => Err(ReaderErrorView::Cdr(e)),
            },
        },
    }
}

/// A frame is numbered as asked.
proof fn lemma_frame_of_sequence(kind: ImageMessageType, data: Seq<u8>, sequence: u64)
    ensures
        spec_frame_of(kind, data, sequence) matches Ok(f) ==> f.sequence == sequence,
{
    reveal(spec_frame_of);
}

/// Where the scan of the first `n` items succeeds, it has found frames
/// exactly where a message of the topic occurs among them, and its first
/// frame is the first such message decoded as frame 0 by the image type
/// that the message's own schema names.
proof fn lemma_scan_first(items: Seq<Option<McapMessageView>>, topic: Seq<char>, n: nat)
    requires
        n <= items.len(),
        scan_frames(items, topic, n) is Ok,
    ensures
        ({
            let (kind, frames) = scan_frames(items, topic, n)->Ok_0;
            &&& (frames.len() == 0 <==> first_on_topic(items, topic, n) is None)
            &&& (frames.len() == 0 <==> kind is None)
            &&& frames.len() > 0 ==> {
                &&& first_on_topic(items, topic, n) is Some
                &&& kind is Some
                &&& spec_image_kind(schema_of(first_on_topic(items, topic, n)->Some_0)) == kind
                &&& spec_frame_of(
                    kind->Some_0,
                    first_on_topic(items, topic, n)->Some_0.data,
                    0,
                ) == Ok::<VideoFrameView, CdrError>(frames[0])
            }
        }),
    decreases n,
{
    if n > 0 {
        lemma_scan_first(items, topic, (n - 1) as nat);
    }
}

/// The frames that a successful scan finds (no more than a `u64` numbers)
/// are numbered by position.
proof fn lemma_scan_sequences(items: Seq<Option<McapMessageView>>, topic: Seq<char>, n: nat)
    requires
        n <= items.len(),
        scan_frames(items, topic, n) is Ok,
        scan_frames(items, topic, n)->Ok_0.1.len() <= u64::MAX,
    ensures
        forall|j: int|
            0 <= j < scan_frames(items, topic, n)->Ok_0.1.len() ==> (#[trigger] scan_frames(
                items,
                topic,
                n,
            )->Ok_0.1[j]).sequence == j,
    decreases n,
{
    if n > 0 {
        let (kind, frames) = scan_frames(items, topic, (n - 1) as nat)->Ok_0;
        lemma_scan_sequences(items, topic, (n - 1) as nat);
        match frame_step(items[n - 1], topic, kind, frames.len() as u64) {
            Ok(Some((k, f))) => {
                let m = items[n - 1]->Some_0;
                assert(spec_frame_of(k, m.data, frames.len() as u64) == Ok::<VideoFrameView, CdrError>(f));
                lemma_frame_of_sequence(k, m.data, frames.len() as u64);
                assert(f.sequence == frames.len());
                let all = frames.push(f);
                assert forall|j: int| 0 <= j < all.len() implies (#[trigger] all[j]).sequence == j by {
                    if j < frames.len() {
                        assert(all[j] == frames[j]);
                    } else {
                        assert(all[j] == f);
                    }
                }
            },
            _ => {},
        }
    }
}

/// The first frame of a topic is one of the frames that `extract_frames`
/// returns for the stream: the one numbered 0, the frame of the topic's
/// first message.
pub proof fn law_first_frame_is_frame_zero(
    items: Seq<Option<McapMessageView>>,
    topic: Seq<char>,
    v: Seq<VideoFrame>,
)
    requires
        frames_extracted(items, topic, Ok::<Seq<VideoFrame>, ReaderErrorView>(v)),
    ensures
        first_frame(items, topic) matches Ok(f) && f.sequence == 0 && frames_view(v).contains(f),
{
    lemma_scan_first(items, topic, items.len());
    let frames = scan_frames(items, topic, items.len())->Ok_0.1;
    let m = first_on_topic(items, topic, items.len())->Some_0;
    let k = spec_image_kind(schema_of(m))->Some_0;
    lemma_frame_of_sequence(k, m.data, 0);
    broadcast use vstd::seq_lib::group_to_multiset_ensures;
    assert(frames.contains(frames[0]));
    assert(frames_view(v).to_multiset().count(frames[0]) > 0);
}

/// The first frame of `topic` in a message stream.
pub fn extract_first_frame_from(items: &[Option<McapMessage>], topic: &str) -> (r: Result<
    VideoFrame,
    ReaderError,
>)
    requires
        payloads_fit(items@),
    ensures
        match first_frame(stream_view(items@), topic@) {
            Ok(f) => r matches Ok(frame) && frame@ == f,
            Err(e) => r matches Err(e2) && e2@ == e,
        },
{
    match first_index_on_topic(items, topic) {
        None => Err(ReaderError::NoFrames { topic: topic.to_string() }),
        Some(i) => {
            let m = match &items[i] {
                Some(m) => m,
                None => {
                    return Err(ReaderError::NoFrames { topic: topic.to_string() });
                },
            };
            let schema = schema_str(m);
            let kind = match ImageMessageType::from_schema_name(schema) {
                Some(k) => k,
                None => {
                    return Err(
                        ReaderError::NotImageTopic {
                            topic: topic.to_string(),
                            schema_name: schema.to_string(),
                        },
                    );
                },
            };
            match frame_of(kind, m.data.as_slice(), 0) {
                Ok(f) => Ok(f),
                Err(e) => Err(ReaderError::Cdr(e)),
            }
        },
    }
}

// ---- Topics ----

/// A message of `topic` occurs among the first `n` items.
pub open spec fn seen(items: Seq<Option<McapMessageView>>, topic: Seq<char>, n: nat) -> bool {
    first_on_topic(items, topic, n) is Some
}

/// The schema name of the first message of `topic` in the stream.
pub open spec fn topic_schema(items: Seq<Option<McapMessageView>>, topic: Seq<char>) -> Seq<char> {
    schema_of(first_on_topic(items, topic, items.len())->0)
}

/// A topic that has no message among the first `n` items counts none there.
proof fn lemma_unseen_count(items: Seq<Option<McapMessageView>>, topic: Seq<char>, n: nat)
    requires
        !seen(items, topic, n),
    ensures
        count_on_topic(items, topic, n) == 0,
    decreases n,
{
    if n > 0 {
        lemma_unseen_count(items, topic, (n - 1) as nat);
    }
}

/// A topic counts at most as many messages as there are items.
proof fn lemma_count_bound(items: Seq<Option<McapMessageView>>, topic: Seq<char>, n: nat)
    ensures
        count_on_topic(items, topic, n) <= n,
    decreases n,
{
    if n > 0 {
        lemma_count_bound(items, topic, (n - 1) as nat);
    }
}

/// A topic that has a message among the first `n` items counts at least one.
proof fn lemma_seen_count(items: Seq<Option<McapMessageView>>, topic: Seq<char>, n: nat)
    requires
        seen(items, topic, n),
    ensures
        count_on_topic(items, topic, n) >= 1,
    decreases n,
{
    if n > 0 && seen(items, topic, (n - 1) as nat) {
        lemma_seen_count(items, topic, (n - 1) as nat);
    }
}

/// Every topic that a listing of a stream shows has at least one message.
#[verifier::spinoff_prover]
pub proof fn law_listed_topics_have_messages(
    items: Seq<Option<McapMessageView>>,
    videos: Seq<TopicInfoView>,
    metadata: Seq<MetadataTopicInfoView>,
)
    requires
        items.len() <= usize::MAX,
        video_topics_listed(items, videos),
        metadata_topics_listed(items, metadata),
    ensures
        forall|i: int| 0 <= i < videos.len() ==> (#[trigger] videos[i]).message_count >= 1,
        forall|i: int| 0 <= i < metadata.len() ==> (#[trigger] metadata[i]).message_count >= 1,
{
    assert forall|i: int| 0 <= i < videos.len() implies (#[trigger] videos[i]).message_count >= 1 by {
        assert(videos[i] == video_topic_entry(items, videos[i].name));
        lemma_seen_count(items, videos[i].name, items.len());
        lemma_count_bound(items, videos[i].name, items.len());
    }
    assert forall|i: int| 0 <= i < metadata.len() implies (#[trigger] metadata[i]).message_count
        >= 1 by {
        assert(metadata[i] == metadata_topic_entry(items, metadata[i].name));
        lemma_seen_count(items, metadata[i].name, items.len());
        lemma_count_bound(items, metadata[i].name, items.len());
    }
}

/// The topics of a stream, each once, with the schema name of its first
/// message and its message count.
struct TopicTable {
    names: Vec<String>,
    schemas: Vec<String>,
    counts: Vec<usize>,
}

impl TopicTable {
    spec fn describes(&self, items: Seq<Option<McapMessageView>>, n: nat) -> bool {
        &&& self.names.len() == self.schemas.len()
        &&& self.names.len() == self.counts.len()
        &&& forall|k: int|
            0 <= k < self.names.len() ==> {
                &&& #[trigger] first_on_topic(items, self.names@[k]@, n) matches Some(m)
                &&& self.schemas@[k]@ == schema_of(m)
                &&& self.counts@[k] == count_on_topic(items, self.names@[k]@, n)
            }
        &&& forall|t: Seq<char>|
            #[trigger] seen(items, t, n) ==> exists|k: int|
                0 <= k < self.names.len() && #[trigger] self.names@[k]@ == t
        &&& forall|k1: int, k2: int|
            0 <= k1 < self.names.len() && 0 <= k2 < self.names.len() && k1 != k2
                ==> #[trigger] self.names@[k1]@ != #[trigger] self.names@[k2]@
    }
}

/// The position of `name` in `names`.
fn find_name(names: &Vec<String>, name: &String) -> (r: Option<usize>)
    ensures
        match r {
            Some(k) => k < names.len() && names@[k as int]@ == name@,
            None => forall|k: int| 0 <= k < names.len() ==> names@[k]@ != name@,
        },
{
    let mut k: usize = 0;
    while k < names.len()
        invariant
            k <= names.len(),
            forall|j: int| 0 <= j < k ==> names@[j]@ != name@,
        decreases names.len() - k,
    {
        if names[k] == *name {
            return Some(k);
        }
        k = k + 1;
    }
    None
}

fn topic_table(items: &[Option<McapMessage>]) -> (r: TopicTable)
    ensures
        r.describes(stream_view(items@), items.len() as nat),
{
    let ghost sv = stream_view(items@);
    let mut t = TopicTable { names: Vec::new(), schemas: Vec::new(), counts: Vec::new() };
    let mut i: usize = 0;
    while i < items.len()
        invariant
            sv == stream_view(items@),
            sv.len() == items.len(),
            i <= items.len(),
            t.describes(sv, i as nat),
            forall|k: int| 0 <= k < t.counts.len() ==> #[trigger] t.counts@[k] <= i,
        decreases items.len() - i,
    {
        proof {
            assert(sv[i as int] == match items@[i as int] {
                Some(m) => Some(m@),
                None => None,
            });
        }
        let ghost old_t_names = t.names@;
        let ghost old_t_schemas = t.schemas@;
        let ghost old_t_counts = t.counts@;
        match &items[i] {
            None => {
                proof {
                    assert forall|k: int| 0 <= k < t.names.len() implies {
                        &&& #[trigger] first_on_topic(sv, t.names@[k]@, (i + 1) as nat) matches Some(m)
                        &&& t.schemas@[k]@ == schema_of(m)
                        &&& t.counts@[k] == count_on_topic(sv, t.names@[k]@, (i + 1) as nat)
                    } by {
                        assert(first_on_topic(sv, t.names@[k]@, i as nat) is Some);
                    }
                    assert forall|tp: Seq<char>| #[trigger] seen(sv, tp, (i + 1) as nat) implies exists|k: int|
                        0 <= k < t.names.len() && #[trigger] t.names@[k]@ == tp by {
                        assert(seen(sv, tp, i as nat));
                    }
                }
            },
            Some(m) => {
                match find_name(&t.names, &m.topic) {
                    Some(k) => {
                        proof {
                            lemma_count_bound(sv, m.topic@, i as nat);
                        }
                        let c = t.counts[k] + 1;
                        t.counts.set(k, c);
                        proof {
                            assert forall|j: int| 0 <= j < t.names.len() implies {
                                &&& #[trigger] first_on_topic(sv, t.names@[j]@, (i + 1) as nat) matches Some(mm)
                                &&& t.schemas@[j]@ == schema_of(mm)
                                &&& t.counts@[j] == count_on_topic(sv, t.names@[j]@, (i + 1) as nat)
                            } by {
                                assert(first_on_topic(sv, old_t_names[j]@, i as nat) is Some);
                                if j != k {
                                    assert(old_t_names[j]@ != old_t_names[k as int]@);
                                }
                            }
                            assert forall|tp: Seq<char>| #[trigger] seen(sv, tp, (i + 1) as nat) implies exists|j: int|
                                0 <= j < t.names.len() && #[trigger] t.names@[j]@ == tp by {
                                if !seen(sv, tp, i as nat) {
                                    assert(t.names@[k as int]@ == tp);
                                }
                            }
                        }
                    },
                    None => {
                        proof {
                            if seen(sv, m.topic@, i as nat) {
                                let j = choose|j: int| 0 <= j < t.names.len() && #[trigger] t.names@[j]@ == m.topic@;
                                assert(false);
                            }
                            lemma_unseen_count(sv, m.topic@, i as nat);
                        }
                        let name = m.topic.clone();
                        let schema = schema_str(m).to_string();
                        t.names.push(name);
                        t.schemas.push(schema);
                        t.counts.push(1);
                        proof {
                            let n = t.names.len() - 1;
                            assert forall|j: int| 0 <= j < t.names.len() implies {
                                &&& #[trigger] first_on_topic(sv, t.names@[j]@, (i + 1) as nat) matches Some(mm)
                                &&& t.schemas@[j]@ == schema_of(mm)
                                &&& t.counts@[j] == count_on_topic(sv, t.names@[j]@, (i + 1) as nat)
                            } by {
                                if j < n {
                                    assert(t.names@[j] == old_t_names[j]);
                                    assert(first_on_topic(sv, old_t_names[j]@, i as nat) is Some);
                                    assert(old_t_names[j]@ != m.topic@);
                                }
                            }
                            assert forall|tp: Seq<char>| #[trigger] seen(sv, tp, (i + 1) as nat) implies exists|j: int|
                                0 <= j < t.names.len() && #[trigger] t.names@[j]@ == tp by {
                                if !seen(sv, tp, i as nat) {
                                    assert(t.names@[n as int]@ == tp);
                                } else {
                                    let j = choose|j: int| 0 <= j < old_t_names.len() && #[trigger] old_t_names[j]@ == tp;
                                    assert(t.names@[j] == old_t_names[j]);
                                }
                            }
                            assert forall|k1: int, k2: int|
                                0 <= k1 < t.names.len() && 0 <= k2 < t.names.len() && k1 != k2
                                    implies #[trigger] t.names@[k1]@ != #[trigger] t.names@[k2]@ by {
                                if k1 < n && k2 < n {
                                    assert(t.names@[k1] == old_t_names[k1]);
                                    assert(t.names@[k2] == old_t_names[k2]);
                                }
                            }
                        }
                    },
                }
            },
        }
        i = i + 1;
    }
    t
}

/// The entry that a topic listing gives a topic of the stream.
pub open spec fn video_topic_entry(items: Seq<Option<McapMessageView>>, topic: Seq<char>) -> TopicInfoView {
    TopicInfoView {
        name: topic,
        schema_name: topic_schema(items, topic),
        message_count: count_on_topic(items, topic, items.len()) as usize,
        message_type: spec_image_kind(topic_schema(items, topic)),
    }
}

/// `list` holds, sorted by name, one entry for each topic of the stream
/// whose first message's schema names an image type, and nothing else.
pub open spec fn video_topics_listed(items: Seq<Option<McapMessageView>>, list: Seq<TopicInfoView>) -> bool {
    &&& forall|i: int|
        0 <= i < list.len() ==> {
            &&& seen(items, list[i].name, items.len())
            &&& #[trigger] list[i] == video_topic_entry(items, list[i].name)
            &&& list[i].message_type is Some
        }
    &&& forall|t: Seq<char>|
        seen(items, t, items.len()) && (#[trigger] spec_image_kind(topic_schema(items, t))) is Some
            ==> exists|i: int| 0 <= i < list.len() && #[trigger] list[i].name == t
    &&& forall|i: int, j: int|
        0 <= i < j < list.len() ==> lex_le(#[trigger] list[i].name, #[trigger] list[j].name)
            && list[i].name != list[j].name
}

/// Topic listings are sorted by name.
impl KeyOrder for TopicInfo {
    open spec fn key_le(a: Self, b: Self) -> bool {
        lex_le(a.name@, b.name@)
    }

    fn key_le_exec(&self, other: &Self) -> (r: bool) {
        str_le(self.name.as_str(), other.name.as_str())
    }

    proof fn lemma_key_total(a: Self, b: Self) {
        lemma_lex_total(a.name@, b.name@, 0);
    }

    proof fn lemma_key_transitive(a: Self, b: Self, c: Self) {
        lemma_lex_transitive(a.name@, b.name@, c.name@, 0);
    }
}

pub open spec fn topic_infos_view(list: Seq<TopicInfo>) -> Seq<TopicInfoView> {
    list.map_values(|t: TopicInfo| t@)
}

/// The entries hold distinct names.
spec fn distinct_names(out: Seq<TopicInfo>) -> bool {
    forall|p1: int, p2: int|
        #![trigger out[p1], out[p2]]
        0 <= p1 < out.len() && 0 <= p2 < out.len() && p1 != p2 ==> out[p1].name@ != out[p2].name@
}

/// Some entry has the name `t`.
spec fn lists_name(out: Seq<TopicInfo>, t: Seq<char>) -> bool {
    exists|p: int| 0 <= p < out.len() && out[p].name@ == t
}

/// `e` is the listing entry of one of the stream's image topics.
spec fn good_video_entry(sv: Seq<Option<McapMessageView>>, e: TopicInfo) -> bool {
    &&& seen(sv, e.name@, sv.len())
    &&& e@ == video_topic_entry(sv, e.name@)
    &&& e.message_type is Some
}

spec fn candidates_hold(sv: Seq<Option<McapMessageView>>, table: &TopicTable, out: Seq<TopicInfo>) -> bool {
    &&& forall|p: int| 0 <= p < out.len() ==> good_video_entry(sv, #[trigger] out[p])
    &&& forall|j: int|
        0 <= j < table.names.len() && (#[trigger] spec_image_kind(table.schemas@[j]@)) is Some
            ==> lists_name(out, table.names@[j]@)
    &&& distinct_names(out)
}

/// The entries of the table's topics whose schema names an image type, in
/// table order.
fn video_candidates(items: &[Option<McapMessage>], table: &TopicTable) -> (out: Vec<TopicInfo>)
    requires
        table.describes(stream_view(items@), items.len() as nat),
    ensures
        candidates_hold(stream_view(items@), table, out@),
{
    let ghost sv = stream_view(items@);
    let mut out: Vec<TopicInfo> = Vec::new();
    let mut k: usize = 0;
    while k < table.names.len()
        invariant
            sv == stream_view(items@),
            sv.len() == items.len(),
            table.describes(sv, items.len() as nat),
            k <= table.names.len(),
            forall|p: int| 0 <= p < out.len() ==> good_video_entry(sv, #[trigger] out@[p]),
            forall|j: int|
                0 <= j < k && (#[trigger] spec_image_kind(table.schemas@[j]@)) is Some
                    ==> lists_name(out@, table.names@[j]@),
            distinct_names(out@),
            forall|p: int|
                0 <= p < out.len() ==> exists|j: int|
                    0 <= j < k && table.names@[j]@ == (#[trigger] out@[p]).name@,
        decreases table.names.len() - k,
    {
        let kind = ImageMessageType::from_schema_name(table.schemas[k].as_str());
        if kind.is_some() {
            let ghost before = out@;
            let info = TopicInfo {
                name: table.names[k].clone(),
                schema_name: table.schemas[k].clone(),
                message_count: table.counts[k],
                message_type: kind,
            };
            proof {
                assert(first_on_topic(sv, table.names@[k as int]@, items.len() as nat) is Some);
                assert(good_video_entry(sv, info));
            }
            out.push(info);
            proof {
                let n = before.len() as int;
                assert(out@[n] == info);
                assert forall|p: int| 0 <= p < out.len() implies good_video_entry(sv, #[trigger] out@[p]) by {
                    if p < n {
                        assert(out@[p] == before[p]);
                    }
                }
                assert forall|j: int|
                    0 <= j < k + 1 && (#[trigger] spec_image_kind(table.schemas@[j]@)) is Some
                        implies lists_name(out@, table.names@[j]@) by {
                    if j < k {
                        assert(lists_name(before, table.names@[j]@));
                        let p = choose|p: int| 0 <= p < before.len() && before[p].name@ == table.names@[j]@;
                        assert(out@[p] == before[p]);
                    } else {
                        assert(out@[n].name@ == table.names@[j]@);
                    }
                }
                assert forall|p: int| 0 <= p < out.len() implies exists|j: int|
                    0 <= j < k + 1 && table.names@[j]@ == (#[trigger] out@[p]).name@ by {
                    if p < n {
                        assert(out@[p] == before[p]);
                        let j = choose|j: int| 0 <= j < k && table.names@[j]@ == before[p].name@;
                        assert(table.names@[j]@ == out@[p].name@);
                    } else {
                        assert(table.names@[k as int]@ == out@[p].name@);
                    }
                }
                assert forall|p1: int, p2: int|
                    #![trigger out@[p1], out@[p2]]
                    0 <= p1 < out.len() && 0 <= p2 < out.len() && p1 != p2
                        implies out@[p1].name@ != out@[p2].name@ by {
                    if p1 < n && p2 < n {
                        assert(out@[p1] == before[p1] && out@[p2] == before[p2]);
                        assert(before[p1].name@ != before[p2].name@);
                    } else {
                        let q = if p1 == n { p2 } else { p1 };
                        assert(q < n);
                        assert(out@[q] == before[q]);
                        let j = choose|j: int| 0 <= j < k && table.names@[j]@ == before[q].name@;
                        assert(table.names@[j]@ != table.names@[k as int]@);
                    }
                }
            }
        }
        k = k + 1;
    }
    out
}

/// The video topics of a message stream, sorted by name.
pub fn video_topics(items: &[Option<McapMessage>]) -> (r: Vec<TopicInfo>)
    ensures
        video_topics_listed(stream_view(items@), topic_infos_view(r@)),
{
    let ghost sv = stream_view(items@);
    let table = topic_table(items);
    let mut out = video_candidates(items, &table);
    let ghost unsorted = out@;
    sort_by_key(&mut out);
    proof {
        lemma_video_listing(sv, &table, unsorted, out@);
    }
    out
}

/// A sorted rearrangement of a list of distinct names is strictly sorted
/// and holds the same entries.
proof fn lemma_sorted_listing(unsorted: Seq<TopicInfo>, sorted: Seq<TopicInfo>)
    requires
        sorted.to_multiset() == unsorted.to_multiset(),
        sorted_by_key(sorted),
        distinct_names(unsorted),
    ensures
        forall|i: int| 0 <= i < sorted.len() ==> unsorted.contains(#[trigger] sorted[i]),
        forall|p: int| 0 <= p < unsorted.len() ==> sorted.contains(#[trigger] unsorted[p]),
        forall|i: int, j: int|
            0 <= i < j < sorted.len() ==> lex_le(#[trigger] sorted[i].name@, #[trigger] sorted[j].name@)
                && sorted[i].name@ != sorted[j].name@,
{
    assert forall|i: int| 0 <= i < sorted.len() implies unsorted.contains(#[trigger] sorted[i]) by {
        vstd::seq_lib::to_multiset_contains(sorted, sorted[i]);
        vstd::seq_lib::to_multiset_contains(unsorted, sorted[i]);
        assert(sorted.contains(sorted[i]));
    }
    assert forall|p: int| 0 <= p < unsorted.len() implies sorted.contains(#[trigger] unsorted[p]) by {
        vstd::seq_lib::to_multiset_contains(sorted, unsorted[p]);
        vstd::seq_lib::to_multiset_contains(unsorted, unsorted[p]);
        assert(unsorted.contains(unsorted[p]));
    }
    assert(unsorted.no_duplicates()) by {
        assert forall|a: int, b: int|
            0 <= a < unsorted.len() && 0 <= b < unsorted.len() && a != b implies unsorted[a]
                != unsorted[b] by {
            assert(unsorted[a].name@ != unsorted[b].name@);
        }
    }
    unsorted.lemma_multiset_has_no_duplicates();
    sorted.lemma_multiset_has_no_duplicates_conv();
    assert forall|i: int, j: int|
        0 <= i < j < sorted.len() implies lex_le(#[trigger] sorted[i].name@, #[trigger] sorted[j].name@)
            && sorted[i].name@ != sorted[j].name@ by {
        assert(TopicInfo::key_le(sorted[i], sorted[j]));
        if sorted[i].name@ == sorted[j].name@ {
            assert(unsorted.contains(sorted[i]));
            assert(unsorted.contains(sorted[j]));
            let a = choose|p: int| 0 <= p < unsorted.len() && unsorted[p] == sorted[i];
            let b = choose|p: int| 0 <= p < unsorted.len() && unsorted[p] == sorted[j];
            if a != b {
                assert(unsorted[a].name@ != unsorted[b].name@);
            }
            assert(sorted[i] != sorted[j]);
        }
    }
}

proof fn lemma_video_listing(
    sv: Seq<Option<McapMessageView>>,
    table: &TopicTable,
    unsorted: Seq<TopicInfo>,
    sorted: Seq<TopicInfo>,
)
    requires
        table.describes(sv, sv.len()),
        candidates_hold(sv, table, unsorted),
        sorted.to_multiset() == unsorted.to_multiset(),
        sorted_by_key(sorted),
    ensures
        video_topics_listed(sv, topic_infos_view(sorted)),
{
    lemma_sorted_listing(unsorted, sorted);
    let lv = topic_infos_view(sorted);
    assert forall|i: int| 0 <= i < lv.len() implies {
        &&& seen(sv, lv[i].name, sv.len())
        &&& #[trigger] lv[i] == video_topic_entry(sv, lv[i].name)
        &&& lv[i].message_type is Some
    } by {
        assert(unsorted.contains(sorted[i]));
        let p = choose|p: int| 0 <= p < unsorted.len() && unsorted[p] == sorted[i];
        assert(good_video_entry(sv, unsorted[p]));
    }
    assert forall|tp: Seq<char>|
        seen(sv, tp, sv.len()) && (#[trigger] spec_image_kind(topic_schema(sv, tp))) is Some
            implies exists|i: int| 0 <= i < lv.len() && #[trigger] lv[i].name == tp by {
        assert(seen(sv, tp, sv.len()));
        let j = choose|j: int| 0 <= j < table.names.len() && #[trigger] table.names@[j]@ == tp;
        assert(first_on_topic(sv, table.names@[j]@, sv.len()) is Some);
        assert(spec_image_kind(table.schemas@[j]@) is Some);
        assert(lists_name(unsorted, table.names@[j]@));
        let p = choose|p: int| 0 <= p < unsorted.len() && unsorted[p].name@ == table.names@[j]@;
        assert(sorted.contains(unsorted[p]));
        let i = choose|i: int| 0 <= i < sorted.len() && sorted[i] == unsorted[p];
        assert(lv[i].name == tp);
    }
}

/// The entry that a topic listing gives a topic of the stream.
pub open spec fn metadata_topic_entry(items: Seq<Option<McapMessageView>>, topic: Seq<char>) -> MetadataTopicInfoView {
    MetadataTopicInfoView {
        name: topic,
        schema_name: topic_schema(items, topic),
        message_count: count_on_topic(items, topic, items.len()) as usize,
        message_type: spec_metadata_kind(topic_schema(items, topic))->0,
    }
}

/// `list` holds, sorted by name, one entry for each topic of the stream
/// whose first message's schema names an metadata type, and nothing else.
pub open spec fn metadata_topics_listed(items: Seq<Option<McapMessageView>>, list: Seq<MetadataTopicInfoView>) -> bool {
    &&& forall|i: int|
        0 <= i < list.len() ==> {
            &&& seen(items, list[i].name, items.len())
            &&& #[trigger] list[i] == metadata_topic_entry(items, list[i].name)
            &&& spec_metadata_kind(topic_schema(items, list[i].name)) is Some
        }
    &&& forall|t: Seq<char>|
        seen(items, t, items.len()) && (#[trigger] spec_metadata_kind(topic_schema(items, t))) is Some
            ==> exists|i: int| 0 <= i < list.len() && #[trigger] list[i].name == t
    &&& forall|i: int, j: int|
        0 <= i < j < list.len() ==> lex_le(#[trigger] list[i].name, #[trigger] list[j].name)
            && list[i].name != list[j].name
}

/// Topic listings are sorted by name.
impl KeyOrder for MetadataTopicInfo {
    open spec fn key_le(a: Self, b: Self) -> bool {
        lex_le(a.name@, b.name@)
    }

    fn key_le_exec(&self, other: &Self) -> (r: bool) {
        str_le(self.name.as_str(), other.name.as_str())
    }

    proof fn lemma_key_total(a: Self, b: Self) {
        lemma_lex_total(a.name@, b.name@, 0);
    }

    proof fn lemma_key_transitive(a: Self, b: Self, c: Self) {
        lemma_lex_transitive(a.name@, b.name@, c.name@, 0);
    }
}

pub open spec fn metadata_infos_view(list: Seq<MetadataTopicInfo>) -> Seq<MetadataTopicInfoView> {
    list.map_values(|t: MetadataTopicInfo| t@)
}

/// The entries hold distinct names.
spec fn distinct_meta_names(out: Seq<MetadataTopicInfo>) -> bool {
    forall|p1: int, p2: int|
        #![trigger out[p1], out[p2]]
        0 <= p1 < out.len() && 0 <= p2 < out.len() && p1 != p2 ==> out[p1].name@ != out[p2].name@
}

/// Some entry has the name `t`.
spec fn lists_meta_name(out: Seq<MetadataTopicInfo>, t: Seq<char>) -> bool {
    exists|p: int| 0 <= p < out.len() && out[p].name@ == t
}

/// `e` is the listing entry of one of the stream's metadata topics.
spec fn good_metadata_entry(sv: Seq<Option<McapMessageView>>, e: MetadataTopicInfo) -> bool {
    &&& seen(sv, e.name@, sv.len())
    &&& e@ == metadata_topic_entry(sv, e.name@)
    &&& spec_metadata_kind(topic_schema(sv, e.name@)) is Some
}

spec fn meta_candidates_hold(sv: Seq<Option<McapMessageView>>, table: &TopicTable, out: Seq<MetadataTopicInfo>) -> bool {
    &&& forall|p: int| 0 <= p < out.len() ==> good_metadata_entry(sv, #[trigger] out[p])
    &&& forall|j: int|
        0 <= j < table.names.len() && (#[trigger] spec_metadata_kind(table.schemas@[j]@)) is Some
            ==> lists_meta_name(out, table.names@[j]@)
    &&& distinct_meta_names(out)
}

/// The entries of the table's topics whose schema names an metadata type, in
/// table order.
fn metadata_candidates(items: &[Option<McapMessage>], table: &TopicTable) -> (out: Vec<MetadataTopicInfo>)
    requires
        table.describes(stream_view(items@), items.len() as nat),
    ensures
        meta_candidates_hold(stream_view(items@), table, out@),
{
    let ghost sv = stream_view(items@);
    let mut out: Vec<MetadataTopicInfo> = Vec::new();
    let mut k: usize = 0;
    while k < table.names.len()
        invariant
            sv == stream_view(items@),
            sv.len() == items.len(),
            table.describes(sv, items.len() as nat),
            k <= table.names.len(),
            forall|p: int| 0 <= p < out.len() ==> good_metadata_entry(sv, #[trigger] out@[p]),
            forall|j: int|
                0 <= j < k && (#[trigger] spec_metadata_kind(table.schemas@[j]@)) is Some
                    ==> lists_meta_name(out@, table.names@[j]@),
            distinct_meta_names(out@),
            forall|p: int|
                0 <= p < out.len() ==> exists|j: int|
                    0 <= j < k && table.names@[j]@ == (#[trigger] out@[p]).name@,
        decreases table.names.len() - k,
    {
        let kind = MetadataMessageType::from_schema_name(table.schemas[k].as_str());
        if let Some(kind) = kind {
            let ghost before = out@;
            let info = MetadataTopicInfo {
                name: table.names[k].clone(),
                schema_name: table.schemas[k].clone(),
                message_count: table.counts[k],
                message_type: kind,
            };
            proof {
                assert(first_on_topic(sv, table.names@[k as int]@, items.len() as nat) is Some);
                assert(good_metadata_entry(sv, info));
            }
            out.push(info);
            proof {
                let n = before.len() as int;
                assert(out@[n] == info);
                assert forall|p: int| 0 <= p < out.len() implies good_metadata_entry(sv, #[trigger] out@[p]) by {
                    if p < n {
                        assert(out@[p] == before[p]);
                    }
                }
                assert forall|j: int|
                    0 <= j < k + 1 && (#[trigger] spec_metadata_kind(table.schemas@[j]@)) is Some
                        implies lists_meta_name(out@, table.names@[j]@) by {
                    if j < k {
                        assert(lists_meta_name(before, table.names@[j]@));
                        let p = choose|p: int| 0 <= p < before.len() && before[p].name@ == table.names@[j]@;
                        assert(out@[p] == before[p]);
                    } else {
                        assert(out@[n].name@ == table.names@[j]@);
                    }
                }
                assert forall|p: int| 0 <= p < out.len() implies exists|j: int|
                    0 <= j < k + 1 && table.names@[j]@ == (#[trigger] out@[p]).name@ by {
                    if p < n {
                        assert(out@[p] == before[p]);
                        let j = choose|j: int| 0 <= j < k && table.names@[j]@ == before[p].name@;
                        assert(table.names@[j]@ == out@[p].name@);
                    } else {
                        assert(table.names@[k as int]@ == out@[p].name@);
                    }
                }
                assert forall|p1: int, p2: int|
                    #![trigger out@[p1], out@[p2]]
                    0 <= p1 < out.len() && 0 <= p2 < out.len() && p1 != p2
                        implies out@[p1].name@ != out@[p2].name@ by {
                    if p1 < n && p2 < n {
                        assert(out@[p1] == before[p1] && out@[p2] == before[p2]);
                        assert(before[p1].name@ != before[p2].name@);
                    } else {
                        let q = if p1 == n { p2 } else { p1 };
                        assert(q < n);
                        assert(out@[q] == before[q]);
                        let j = choose|j: int| 0 <= j < k && table.names@[j]@ == before[q].name@;
                        assert(table.names@[j]@ != table.names@[k as int]@);
                    }
                }
            }
        }
        k = k + 1;
    }
    out
}

/// The video topics of a message stream, sorted by name.
pub fn metadata_topics(items: &[Option<McapMessage>]) -> (r: Vec<MetadataTopicInfo>)
    ensures
        metadata_topics_listed(stream_view(items@), metadata_infos_view(r@)),
{
    let ghost sv = stream_view(items@);
    let table = topic_table(items);
    let mut out = metadata_candidates(items, &table);
    let ghost unsorted = out@;
    sort_by_key(&mut out);
    proof {
        lemma_metadata_listing(sv, &table, unsorted, out@);
    }
    out
}

/// A sorted rearrangement of a list of distinct names is strictly sorted
/// and holds the same entries.
proof fn lemma_sorted_meta_listing(unsorted: Seq<MetadataTopicInfo>, sorted: Seq<MetadataTopicInfo>)
    requires
        sorted.to_multiset() == unsorted.to_multiset(),
        sorted_by_key(sorted),
        distinct_meta_names(unsorted),
    ensures
        forall|i: int| 0 <= i < sorted.len() ==> unsorted.contains(#[trigger] sorted[i]),
        forall|p: int| 0 <= p < unsorted.len() ==> sorted.contains(#[trigger] unsorted[p]),
        forall|i: int, j: int|
            0 <= i < j < sorted.len() ==> lex_le(#[trigger] sorted[i].name@, #[trigger] sorted[j].name@)
                && sorted[i].name@ != sorted[j].name@,
{
    assert forall|i: int| 0 <= i < sorted.len() implies unsorted.contains(#[trigger] sorted[i]) by {
        vstd::seq_lib::to_multiset_contains(sorted, sorted[i]);
        vstd::seq_lib::to_multiset_contains(unsorted, sorted[i]);
        assert(sorted.contains(sorted[i]));
    }
    assert forall|p: int| 0 <= p < unsorted.len() implies sorted.contains(#[trigger] unsorted[p]) by {
        vstd::seq_lib::to_multiset_contains(sorted, unsorted[p]);
        vstd::seq_lib::to_multiset_contains(unsorted, unsorted[p]);
        assert(unsorted.contains(unsorted[p]));
    }
    assert(unsorted.no_duplicates()) by {
        assert forall|a: int, b: int|
            0 <= a < unsorted.len() && 0 <= b < unsorted.len() && a != b implies unsorted[a]
                != unsorted[b] by {
            assert(unsorted[a].name@ != unsorted[b].name@);
        }
    }
    unsorted.lemma_multiset_has_no_duplicates();
    sorted.lemma_multiset_has_no_duplicates_conv();
    assert forall|i: int, j: int|
        0 <= i < j < sorted.len() implies lex_le(#[trigger] sorted[i].name@, #[trigger] sorted[j].name@)
            && sorted[i].name@ != sorted[j].name@ by {
        assert(MetadataTopicInfo::key_le(sorted[i], sorted[j]));
        if sorted[i].name@ == sorted[j].name@ {
            assert(unsorted.contains(sorted[i]));
            assert(unsorted.contains(sorted[j]));
            let a = choose|p: int| 0 <= p < unsorted.len() && unsorted[p] == sorted[i];
            let b = choose|p: int| 0 <= p < unsorted.len() && unsorted[p] == sorted[j];
            if a != b {
                assert(unsorted[a].name@ != unsorted[b].name@);
            }
            assert(sorted[i] != sorted[j]);
        }
    }
}

proof fn lemma_metadata_listing(
    sv: Seq<Option<McapMessageView>>,
    table: &TopicTable,
    unsorted: Seq<MetadataTopicInfo>,
    sorted: Seq<MetadataTopicInfo>,
)
    requires
        table.describes(sv, sv.len()),
        meta_candidates_hold(sv, table, unsorted),
        sorted.to_multiset() == unsorted.to_multiset(),
        sorted_by_key(sorted),
    ensures
        metadata_topics_listed(sv, metadata_infos_view(sorted)),
{
    lemma_sorted_meta_listing(unsorted, sorted);
    let lv = metadata_infos_view(sorted);
    assert forall|i: int| 0 <= i < lv.len() implies {
        &&& seen(sv, lv[i].name, sv.len())
        &&& #[trigger] lv[i] == metadata_topic_entry(sv, lv[i].name)
        &&& spec_metadata_kind(topic_schema(sv, lv[i].name)) is Some
    } by {
        assert(unsorted.contains(sorted[i]));
        let p = choose|p: int| 0 <= p < unsorted.len() && unsorted[p] == sorted[i];
        assert(good_metadata_entry(sv, unsorted[p]));
    }
    assert forall|tp: Seq<char>|
        seen(sv, tp, sv.len()) && (#[trigger] spec_metadata_kind(topic_schema(sv, tp))) is Some
            implies exists|i: int| 0 <= i < lv.len() && #[trigger] lv[i].name == tp by {
        assert(seen(sv, tp, sv.len()));
        let j = choose|j: int| 0 <= j < table.names.len() && #[trigger] table.names@[j]@ == tp;
        assert(first_on_topic(sv, table.names@[j]@, sv.len()) is Some);
        assert(spec_metadata_kind(table.schemas@[j]@) is Some);
        assert(lists_meta_name(unsorted, table.names@[j]@));
        let p = choose|p: int| 0 <= p < unsorted.len() && unsorted[p].name@ == table.names@[j]@;
        assert(sorted.contains(unsorted[p]));
        let i = choose|i: int| 0 <= i < sorted.len() && sorted[i] == unsorted[p];
        assert(lv[i].name == tp);
    }
}

// ---- Metadata ----

/// What one stream item contributes to the camera-info messages of `topic`:
/// nothing, a decoded message, or a decoding error.
#[verifier::opaque]
pub open spec fn camera_step(item: Option<McapMessageView>, topic: Seq<char>) -> Result<
    Option<CameraInfoView>,
    CdrError,
> {
    if on_topic(item, topic) {
        match spec_parse_camera_info(item->0.data) {
            Ok(c) => Ok(Some(c)),
            Err(e) => Err(e),
        }
    } else {
        Ok(None)
    }
}

/// The camera-info messages of `topic` among the first `n` items, decoded in
/// stream order; or the first decoding error.
pub open spec fn camera_infos_on(items: Seq<Option<McapMessageView>>, topic: Seq<char>, n: nat) -> Result<
    Seq<CameraInfoView>,
    CdrError,
>
    decreases n,
{
    if n == 0 {
        Ok(Seq::empty())
    } else {
        match camera_infos_on(items, topic, (n - 1) as nat) {
            Err(e) => Err(e),
            Ok(infos) => match camera_step(items[n - 1], topic) {
                Ok(Some(c)) => Ok(infos.push(c)),
                Ok(None) => Ok(infos),
                Err(e) => Err(e),
            },
        }
    }
}

/// One step of camera-info extraction: see `camera_step`.
fn next_camera_info(item: &Option<McapMessage>, topic: &str) -> (r: Result<
    Option<CameraInfo>,
    CdrError,
>)
    requires
        item matches Some(m) ==> m.data.len() <= isize::MAX,
    ensures
        match camera_step(
            match item {
                Some(m) => Some(m@),
                None => None,
            },
            topic@,
        ) {
            Ok(Some(c)) => r matches Ok(Some(info)) && info@ == c,
            Ok(None) => r matches Ok(None),
            Err(e) => r == Err::<Option<CameraInfo>, CdrError>(e),
        },
{
    reveal(camera_step);
    match item {
        None => Ok(None),
        Some(m) => {
            if !str_is(m.topic.as_str(), topic) {
                return Ok(None);
            }
            match parse_camera_info(m.data.as_slice()) {
                Ok(c) => Ok(Some(c)),
                Err(e) => Err(e),
            }
        },
    }
}

/// Once the decoding has met an error, it stays at that error.
pub proof fn lemma_camera_infos_stop(
    items: Seq<Option<McapMessageView>>,
    topic: Seq<char>,
    n: nat,
    m: nat,
)
    requires
        n <= m,
        camera_infos_on(items, topic, n) is Err,
    ensures
        camera_infos_on(items, topic, m) == camera_infos_on(items, topic, n),
    decreases m - n,
{
    if n < m {
        lemma_camera_infos_stop(items, topic, n, (m - 1) as nat);
    }
}

pub open spec fn camera_infos_view(infos: Seq<CameraInfo>) -> Seq<CameraInfoView> {
    infos.map_values(|c: CameraInfo| c@)
}

proof fn lemma_camera_infos_view_push(infos: Seq<CameraInfo>, c: CameraInfo)
    ensures
        camera_infos_view(infos.push(c)) == camera_infos_view(infos).push(c@),
{
    assert(camera_infos_view(infos.push(c)) =~= camera_infos_view(infos).push(c@));
}

/// The camera-info messages of `topic` in a message stream, decoded in order.
fn all_camera_infos(items: &[Option<McapMessage>], topic: &str) -> (r: Result<
    Vec<CameraInfo>,
    CdrError,
>)
    requires
        payloads_fit(items@),
    ensures
        match camera_infos_on(stream_view(items@), topic@, items.len() as nat) {
            Ok(infos) => r matches Ok(v) && camera_infos_view(v@) == infos,
            Err(e) => r == Err::<Vec<CameraInfo>, CdrError>(e),
        },
{
    let ghost sv = stream_view(items@);
    let mut infos: Vec<CameraInfo> = Vec::new();
    let mut i: usize = 0;
    assert(camera_infos_view(infos@) =~= Seq::<CameraInfoView>::empty());
    while i < items.len()
        invariant
            sv == stream_view(items@),
            sv.len() == items.len(),
            payloads_fit(items@),
            i <= items.len(),
            camera_infos_on(sv, topic@, i as nat) == Ok::<_, CdrError>(camera_infos_view(infos@)),
        decreases items.len() - i,
    {
        proof {
            assert(sv[i as int] == match items@[i as int] {
                Some(m) => Some(m@),
                None => None,
            });
        }
        match next_camera_info(&items[i], topic) {
            Ok(Some(c)) => {
                let ghost before = infos@;
                infos.push(c);
                proof {
                    lemma_camera_infos_view_push(before, c);
                }
            },
            Ok(None) => {},
            Err(e) => {
                proof {
                    lemma_camera_infos_stop(sv, topic@, (i + 1) as nat, items.len() as nat);
                }
                return Err(e);
            },
        }
        i = i + 1;
    }
    Ok(infos)
}

/// What `extract_camera_info` gives for a stream: with `only_first`, the
/// first camera-info message of the topic decoded; otherwise all of them.
pub open spec fn camera_infos_extracted(
    items: Seq<Option<McapMessageView>>,
    topic: Seq<char>,
    only_first: bool,
) -> Result<Seq<CameraInfoView>, ReaderErrorView> {
    if only_first {
        match first_on_topic(items, topic, items.len()) {
            None => Err(ReaderErrorView::NoCameraInfo { topic }),
            Some(m) => match spec_parse_camera_info(m.data) {
                Ok(c) => Ok(seq![c]),
                Err(e) => Err(ReaderErrorView::Cdr(e)),
            },
        }
    } else {
        match camera_infos_on(items, topic, items.len()) {
            Err(e) => Err(ReaderErrorView::Cdr(e)),
            Ok(infos) => if infos.len() == 0 {
                Err(ReaderErrorView::NoCameraInfo { topic })
            } else {
                Ok(infos)
            },
        }
    }
}

/// The camera-info messages of `topic` in a message stream (only the first,
/// with `only_first`).
pub fn extract_camera_info_from(
    items: &[Option<McapMessage>],
    topic: &str,
    only_first: bool,
) -> (r: Result<Vec<CameraInfo>, ReaderError>)
    requires
        payloads_fit(items@),
    ensures
        match camera_infos_extracted(stream_view(items@), topic@, only_first) {
            Ok(infos) => r matches Ok(v) && camera_infos_view(v@) == infos,
            Err(e) => r matches Err(e2) && e2@ == e,
        },
{
    let ghost sv = stream_view(items@);
    if only_first {
        return match first_index_on_topic(items, topic) {
            None => Err(ReaderError::NoCameraInfo { topic: topic.to_string() }),
            Some(i) => match &items[i] {
                None => Err(ReaderError::NoCameraInfo { topic: topic.to_string() }),
                Some(m) => match parse_camera_info(m.data.as_slice()) {
                    Ok(c) => {
                        let ghost cv = c@;
                        let v = vec![c];
                        proof {
                            assert(camera_infos_view(v@) =~= seq![cv]);
                        }
                        Ok(v)
                    },
                    Err(e) => Err(ReaderError::Cdr(e)),
                },
            },
        };
    }
    let infos = match all_camera_infos(items, topic) {
        Ok(infos) => infos,
        Err(e) => {
            return Err(ReaderError::Cdr(e));
        },
    };
    if infos.len() == 0 {
        return Err(ReaderError::NoCameraInfo { topic: topic.to_string() });
    }
    Ok(infos)
}

/// The transform messages of `topic` among the first `n` items, decoded in
/// stream order; or the first decoding error.
pub open spec fn tf_messages_on(items: Seq<Option<McapMessageView>>, topic: Seq<char>, n: nat) -> Result<
    Seq<Seq<TransformStampedView>>,
    CdrError,
>
    decreases n,
{
    if n == 0 {
        Ok(Seq::empty())
    } else {
        match tf_messages_on(items, topic, (n - 1) as nat) {
            Err(e) => Err(e),
            Ok(msgs) => if on_topic(items[n - 1], topic) {
                match spec_parse_tf_message(items[n - 1]->0.data) {
                    Ok(t) => Ok(msgs.push(t)),
                    Err(e) => Err(e),
                }
            } else {
                Ok(msgs)
            },
        }
    }
}

/// Once the decoding has met an error, it stays at that error.
pub proof fn lemma_tf_messages_stop(
    items: Seq<Option<McapMessageView>>,
    topic: Seq<char>,
    n: nat,
    m: nat,
)
    requires
        n <= m,
        tf_messages_on(items, topic, n) is Err,
    ensures
        tf_messages_on(items, topic, m) == tf_messages_on(items, topic, n),
    decreases m - n,
{
    if n < m {
        lemma_tf_messages_stop(items, topic, n, (m - 1) as nat);
    }
}

pub open spec fn tf_messages_view(msgs: Seq<TFMessage>) -> Seq<Seq<TransformStampedView>> {
    msgs.map_values(|t: TFMessage| t@)
}

/// The transform messages of `topic` in a message stream.
pub fn extract_tf_messages_from(items: &[Option<McapMessage>], topic: &str) -> (r: Result<
    Vec<TFMessage>,
    ReaderError,
>)
    requires
        payloads_fit(items@),
    ensures
        match tf_messages_on(stream_view(items@), topic@, items.len() as nat) {
            Err(e) => r matches Err(e2) && e2@ == ReaderErrorView::Cdr(e),
            Ok(msgs) => if msgs.len() == 0 {
                r matches Err(e2) && e2@ == ReaderErrorView::NoTfMessages { topic: topic@ }
            } else {
                r matches Ok(v) && tf_messages_view(v@) == msgs
            },
        },
{
    let ghost sv = stream_view(items@);
    let mut msgs: Vec<TFMessage> = Vec::new();
    let mut i: usize = 0;
    assert(tf_messages_view(msgs@) =~= Seq::<Seq<TransformStampedView>>::empty());
    while i < items.len()
        invariant
            sv == stream_view(items@),
            sv.len() == items.len(),
            payloads_fit(items@),
            i <= items.len(),
            tf_messages_on(sv, topic@, i as nat) == Ok::<_, CdrError>(tf_messages_view(msgs@)),
        decreases items.len() - i,
    {
        proof {
            assert(sv[i as int] == match items@[i as int] {
                Some(m) => Some(m@),
                None => None,
            });
        }
        if let Some(m) = &items[i] {
            if str_is(m.topic.as_str(), topic) {
                match parse_tf_message(m.data.as_slice()) {
                    Ok(t) => {
                        let ghost before = msgs@;
                        msgs.push(t);
                        proof {
                            assert(tf_messages_view(msgs@) =~= tf_messages_view(before).push(t@));
                        }
                    },
                    Err(e) => {
                        proof {
                            lemma_tf_messages_stop(sv, topic@, (i + 1) as nat, items.len() as nat);
                        }
                        return Err(ReaderError::Cdr(e));
                    },
                }
            }
        }
        i = i + 1;
    }
    if msgs.len() == 0 {
        return Err(ReaderError::NoTfMessages { topic: topic.to_string() });
    }
    Ok(msgs)
}

// ---- Frames handed out in batches ----

/// Collects the frames of one topic from a message stream fed to it item by
/// item, and hands them out in batches of `batch_size` (at least one frame
/// each), so that only one batch is held at a time.
pub struct FrameBatcher {
    topic: String,
    batch_size: usize,
    kind: Option<ImageMessageType>,
    sequence: u64,
    batch: Vec<VideoFrame>,
    consumed: Ghost<Seq<Option<McapMessageView>>>,
    delivered: Ghost<Seq<VideoFrameView>>,
}

pub struct FrameBatcherView {
    /// The topic whose frames are collected.
    pub topic: Seq<char>,
    pub batch_size: usize,
    /// The stream items fed so far.
    pub consumed: Seq<Option<McapMessageView>>,
    /// The frames handed out so far, in order.
    pub delivered: Seq<VideoFrameView>,
    /// The frames collected and not yet handed out.
    pub pending: Seq<VideoFrameView>,
}

impl View for FrameBatcher {
    type V = FrameBatcherView;

    closed spec fn view(&self) -> FrameBatcherView {
        FrameBatcherView {
            topic: self.topic@,
            batch_size: self.batch_size,
            consumed: self.consumed@,
            delivered: self.delivered@,
            pending: frames_view(self.batch@),
        }
    }
}

/// A batch is handed out once it holds `batch_size` frames, and at least one.
pub open spec fn batch_full(len: nat, batch_size: usize) -> bool {
    len >= batch_size && len >= 1
}

impl FrameBatcher {
    /// The frames handed out and pending are those of the items fed so far,
    /// in stream order.
    pub closed spec fn wf(&self) -> bool {
        &&& scan_frames(self.consumed@, self.topic@, self.consumed@.len()) == Ok::<
            _,
            ReaderErrorView,
        >((self.kind, self.delivered@ + frames_view(self.batch@)))
        &&& self.sequence == self.delivered@.len() + self.batch@.len()
        &&& !batch_full(self.batch@.len(), self.batch_size)
    }

    /// A batcher for the frames of `topic`.
    pub fn new(topic: &str, batch_size: usize) -> (r: Self)
        ensures
            r.wf(),
            r@.topic == topic@,
            r@.batch_size == batch_size,
            r@.consumed == Seq::<Option<McapMessageView>>::empty(),
            r@.delivered == Seq::<VideoFrameView>::empty(),
            r@.pending == Seq::<VideoFrameView>::empty(),
    {
        let r = FrameBatcher {
            topic: topic.to_string(),
            batch_size,
            kind: None,
            sequence: 0,
            batch: Vec::new(),
            consumed: Ghost(Seq::empty()),
            delivered: Ghost(Seq::empty()),
        };
        assert(frames_view(r.batch@) =~= Seq::<VideoFrameView>::empty());
        assert(r.delivered@ + frames_view(r.batch@) =~= Seq::<VideoFrameView>::empty());
        r
    }

    /// The number of frames collected so far, handed out or not.
    pub fn frames_collected(&self) -> (r: u64)
        requires
            self.wf(),
        ensures
            r == self@.delivered.len() + self@.pending.len(),
    {
        self.sequence
    }

    /// Feeds the next stream item. Where it completes a batch, the batch is
    /// handed out; where the scan meets an error, the error is returned.
    pub fn push(&mut self, item: &Option<McapMessage>) -> (r: Result<
        Option<Vec<VideoFrame>>,
        ReaderError,
    >)
        requires
            old(self).wf(),
            old(self)@.delivered.len() + old(self)@.pending.len() < u64::MAX,
            item matches Some(m) ==> m.data.len() <= isize::MAX,
        ensures
            ({
                let items = old(self)@.consumed.push(
                    match item {
                        Some(m) => Some(m@),
                        None => None,
                    },
                );
                match scan_frames(items, old(self)@.topic, items.len()) {
                    Err(e) => r matches Err(e2) && e2@ == e,
                    Ok((_, frames)) => {
                        &&& r is Ok
                        &&& final(self).wf()
                        &&& final(self)@.topic == old(self)@.topic
                        &&& final(self)@.batch_size == old(self)@.batch_size
                        &&& final(self)@.consumed == items
                        &&& final(self)@.delivered + final(self)@.pending == frames
                        &&& !batch_full(final(self)@.pending.len(), final(self)@.batch_size)
                        &&& match r {
                            Ok(Some(b)) => frames_view(b@) == frames.skip(
                                old(self)@.delivered.len() as int,
                            ) && b.len() == (if old(self)@.batch_size >= 1 {
                                old(self)@.batch_size as int
                            } else {
                                1
                            }) && final(self)@.pending.len() == 0,
                            _ => final(self)@.delivered == old(self)@.delivered,
                        }
                    },
                }
            }),
    {
        let ghost old_items = self.consumed@;
        let ghost iv = match item {
            Some(m) => Some(m@),
            None => None,
        };
        let ghost items = old_items.push(iv);
        let ghost old_batch = frames_view(self.batch@);
        proof {
            assert(items[items.len() - 1] == iv);
            lemma_scan_frames_prefix(items, old_items, self.topic@, old_items.len());
        }
        let step = next_frame(item, self.topic.as_str(), self.kind, self.sequence);
        proof {
            self.consumed = Ghost(items);
            assert(old_items.len() + 1 == items.len());
        }
        match step {
            Err(e) => {
                return Err(e);
            },
            Ok(None) => {
                return Ok(None);
            },
            Ok(Some((k, f))) => {
                self.kind = Some(k);
                self.sequence = self.sequence + 1;
                self.batch.push(f);
                proof {
                    assert(frames_view(self.batch@) =~= old_batch.push(f@));
                    assert(self.delivered@ + frames_view(self.batch@) =~= (self.delivered@
                        + old_batch).push(f@));
                }
                if self.batch.len() >= self.batch_size && self.batch.len() >= 1 {
                    let mut out: Vec<VideoFrame> = Vec::new();
                    std::mem::swap(&mut out, &mut self.batch);
                    proof {
                        let all = self.delivered@ + frames_view(out@);
                        assert(all.skip(self.delivered@.len() as int) =~= frames_view(out@));
                        self.delivered = Ghost(all);
                        assert(frames_view(self.batch@) =~= Seq::<VideoFrameView>::empty());
                        assert(self.delivered@ + frames_view(self.batch@) =~= all);
                    }
                    return Ok(Some(out));
                }
                Ok(None)
            },
        }
    }

    /// A batcher fed a whole stream has collected, in the batches it handed
    /// out and those it holds, the frames that `extract_frames` returns for
    /// that stream, in stream order rather than time order.
    pub proof fn law_batches_hold_extracted_frames(&self, sorted: Seq<VideoFrame>)
        requires
            self.wf(),
            frames_extracted(
                self@.consumed,
                self@.topic,
                Ok::<Seq<VideoFrame>, ReaderErrorView>(sorted),
            ),
        ensures
            frames_view(sorted).to_multiset() == (self@.delivered + self@.pending).to_multiset(),
    {
    }

    /// A batcher fed a whole stream has collected, in the batches it handed
    /// out and the frames it holds, exactly the frames that `extract_frames`
    /// returns for that stream: put in time order (frames of one time in
    /// stream order, as a stable sort by time leaves them), they are those
    /// frames, in their order.
    pub proof fn law_batches_sorted_are_extracted(
        &self,
        sorted: Seq<VideoFrame>,
        resorted: Seq<VideoFrame>,
    )
        requires
            self.wf(),
            frames_extracted(
                self@.consumed,
                self@.topic,
                Ok::<Seq<VideoFrame>, ReaderErrorView>(sorted),
            ),
            frames_view(resorted).to_multiset() == (self@.delivered + self@.pending).to_multiset(),
            sorted_by_key(resorted),
        ensures
            frames_view(resorted) == frames_view(sorted),
    {
        broadcast use vstd::seq_lib::group_to_multiset_ensures;

        let items = self@.consumed;
        let fr = self@.delivered + self@.pending;
        lemma_scan_sequences(items, self@.topic, items.len());
        let a = frames_view(resorted);
        let b = frames_view(sorted);
        let ka = a.map_values(|f: VideoFrameView| frame_key(f));
        let kb = b.map_values(|f: VideoFrameView| frame_key(f));
        lemma_to_multiset_map(a, b, |f: VideoFrameView| frame_key(f));
        let leq = |p: (int, int), q: (int, int)| key_pair_le(p, q);
        assert(vstd::relations::sorted_by(ka, leq)) by {
            assert forall|i: int, j: int| 0 <= i < j < ka.len() implies #[trigger] leq(ka[i], ka[j]) by {
                assert(VideoFrame::key_le(resorted[i], resorted[j]));
            }
        }
        assert(vstd::relations::sorted_by(kb, leq)) by {
            assert forall|i: int, j: int| 0 <= i < j < kb.len() implies #[trigger] leq(kb[i], kb[j]) by {
                assert(VideoFrame::key_le(sorted[i], sorted[j]));
            }
        }
        vstd::seq_lib::lemma_sorted_unique(ka, kb, leq);
        assert forall|i: int| 0 <= i < a.len() implies a[i] == b[i] by {
            assert(ka[i] == kb[i]);
            assert(a.to_multiset().count(a[i]) > 0);
            assert(b.to_multiset().count(b[i]) > 0);
            assert(fr.contains(a[i]));
            assert(fr.contains(b[i]));
            let ja = choose|j: int| 0 <= j < fr.len() && fr[j] == a[i];
            let jb = choose|j: int| 0 <= j < fr.len() && fr[j] == b[i];
            assert(fr[ja].sequence == ja);
            assert(fr[jb].sequence == jb);
        }
        assert(a.len() == b.len()) by {
            assert(a.to_multiset().len() == b.to_multiset().len());
        }
        assert(a =~= b);
    }

    /// Hands out the frames collected and not yet handed out, if any.
    pub fn finish(self) -> (r: Option<Vec<VideoFrame>>)
        requires
            self.wf(),
        ensures
            match r {
                Some(b) => b.len() > 0 && frames_view(b@) == self@.pending,
                None => self@.pending.len() == 0,
            },
    {
        if self.batch.len() > 0 {
            Some(self.batch)
        } else {
            None
        }
    }
}

// ---- A recording ----

/// An MCAP recording held in memory.
pub struct McapReader {
    data: Vec<u8>,
}

impl View for McapReader {
    type V = Seq<u8>;

    closed spec fn view(&self) -> Seq<u8> {
        self.data@
    }
}

impl McapReader {
    /// A reader over a recording held in memory (e.g. downloaded).
    pub fn from_bytes(bytes: Vec<u8>) -> (r: Self)
        ensures
            r@ == bytes@,
    {
        McapReader { data: bytes }
    }

    /// The message stream of the recording: each message in order, and
    /// `None` for each record that could not be read as one.
    pub fn messages(&self) -> (r: Result<Vec<Option<McapMessage>>, ReaderError>)
        ensures
            match mcap_stream(self@) {
                Some(items) => r matches Ok(v) && stream_view(v@) == items && payloads_fit(v@),
                None => r matches Err(e) && e@ == ReaderErrorView::Mcap,
            },
    {
        match read_message_stream(self.data.as_slice()) {
            Ok(v) => Ok(v),
            Err(e) => Err(ReaderError::Mcap(e)),
        }
    }

    /// List all topics that contain image data, sorted by name.
    pub fn list_video_topics(&self) -> (r: Result<Vec<TopicInfo>, ReaderError>)
        ensures
            match mcap_stream(self@) {
                None => r matches Err(e) && e@ == ReaderErrorView::Mcap,
                Some(items) => r matches Ok(v) && video_topics_listed(items, topic_infos_view(v@)),
            },
    {
        let items = self.messages()?;
        Ok(video_topics(items.as_slice()))
    }

    /// List all topics that contain metadata (CameraInfo, TF), sorted by name.
    pub fn list_metadata_topics(&self) -> (r: Result<Vec<MetadataTopicInfo>, ReaderError>)
        ensures
            match mcap_stream(self@) {
                None => r matches Err(e) && e@ == ReaderErrorView::Mcap,
                Some(items) => r matches Ok(v) && metadata_topics_listed(
                    items,
                    metadata_infos_view(v@),
                ),
            },
    {
        let items = self.messages()?;
        Ok(metadata_topics(items.as_slice()))
    }

    /// Extract all video frames of a topic, sorted by time.
    pub fn extract_frames(&self, topic: &str) -> (r: Result<Vec<VideoFrame>, ReaderError>)
        ensures
            match mcap_stream(self@) {
                None => r matches Err(e) && e@ == ReaderErrorView::Mcap,
                Some(items) => frames_extracted(
                    items,
                    topic@,
                    match r {
                        Ok(v) => Ok(v@),
                        Err(e) => Err(e@),
                    },
                ),
            },
    {
        let items = self.messages()?;
        extract_frames_from(items.as_slice(), topic)
    }

    /// Count the messages of a topic and find their time range, without
    /// decoding any payload.
    pub fn scan_topic(&self, topic: &str) -> (r: Result<FrameScanInfo, ReaderError>)
        ensures
            match mcap_stream(self@) {
                None => r matches Err(e) && e@ == ReaderErrorView::Mcap,
                Some(items) => {
                    let n = count_on_topic(items, topic@, items.len());
                    if n == 0 {
                        r matches Err(e) && e@ == ReaderErrorView::NoFrames { topic: topic@ }
                    } else {
                        r == Ok::<FrameScanInfo, ReaderError>(
                            FrameScanInfo {
                                count: n as usize,
                                first_log_time_ns: first_log_time(items, topic@, items.len()),
                                last_log_time_ns: last_log_time(items, topic@, items.len()),
                            },
                        )
                    }
                },
            },
    {
        let items = self.messages()?;
        scan_topic_in(items.as_slice(), topic)
    }

    /// Extract only the first frame of a topic (for its dimensions).
    pub fn extract_first_frame(&self, topic: &str) -> (r: Result<VideoFrame, ReaderError>)
        ensures
            match mcap_stream(self@) {
                None => r matches Err(e) && e@ == ReaderErrorView::Mcap,
                Some(items) => match first_frame(items, topic@) {
                    Ok(f) => r matches Ok(frame) && frame@ == f,
                    Err(e) => r matches Err(e2) && e2@ == e,
                },
            },
    {
        let items = self.messages()?;
        extract_first_frame_from(items.as_slice(), topic)
    }

    /// Extract the CameraInfo messages of a topic (only the first, with
    /// `only_first`).
    pub fn extract_camera_info(&self, topic: &str, only_first: bool) -> (r: Result<
        Vec<CameraInfo>,
        ReaderError,
    >)
        ensures
            match mcap_stream(self@) {
                None => r matches Err(e) && e@ == ReaderErrorView::Mcap,
                Some(items) => match camera_infos_extracted(items, topic@, only_first) {
                    Ok(infos) => r matches Ok(v) && camera_infos_view(v@) == infos,
                    Err(e) => r matches Err(e2) && e2@ == e,
                },
            },
    {
        let items = self.messages()?;
        extract_camera_info_from(items.as_slice(), topic, only_first)
    }

    /// Extract the TFMessage messages of a topic.
    pub fn extract_tf_messages(&self, topic: &str) -> (r: Result<Vec<TFMessage>, ReaderError>)
        ensures
            match mcap_stream(self@) {
                None => r matches Err(e) && e@ == ReaderErrorView::Mcap,
                Some(items) => match tf_messages_on(items, topic@, items.len()) {
                    Err(e) => r matches Err(e2) && e2@ == ReaderErrorView::Cdr(e),
                    Ok(msgs) => if msgs.len() == 0 {
                        r matches Err(e2) && e2@ == ReaderErrorView::NoTfMessages { topic: topic@ }
                    } else {
                        r matches Ok(v) && tf_messages_view(v@) == msgs
                    },
                },
            },
    {
        let items = self.messages()?;
        extract_tf_messages_from(items.as_slice(), topic)
    }
}

} // verus!
