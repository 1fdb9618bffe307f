//! Classification of MCAP channels by schema name and encodings.

use vstd::prelude::*;
use crate::text::str_is;

verus! {

/// Encoding details from an MCAP schema/channel pair.
#[derive(Debug, Clone)]
pub struct TopicSchema {
    pub schema_name: String,
    pub schema_encoding: String,
    pub message_encoding: String,
}

impl TopicSchema {
    pub fn new(schema_name: &str, schema_encoding: &str, message_encoding: &str) -> (r: Self)
        ensures
            r.schema_name@ == schema_name@,
            r.schema_encoding@ == schema_encoding@,
            r.message_encoding@ == message_encoding@,
    {
        TopicSchema {
            schema_name: schema_name.to_owned(),
            schema_encoding: schema_encoding.to_owned(),
            message_encoding: message_encoding.to_owned(),
        }
    }
}

/// Supported video-like MCAP message types.
#[derive(Debug, Clone, Copy, PartialEq, Eq, Structural)]
pub enum VideoMessageKind {
    Ros2Image,
    Ros2CompressedImage,
    FoxgloveCompressedImageProto,
    FoxgloveCompressedVideoProto,
}

/// Supported metadata MCAP message types.
#[derive(Debug, Clone, Copy, PartialEq, Eq, Structural)]
pub enum MetadataMessageKind {
    CameraInfo,
    TFMessage,
}

/// Schema encoding `ros2msg` together with message encoding `cdr`.
pub open spec fn spec_is_ros2_cdr(schema_encoding: Seq<char>, message_encoding: Seq<char>) -> bool {
    schema_encoding == "ros2msg"@ && message_encoding == "cdr"@
}

/// Schema encoding `protobuf` together with message encoding `protobuf`.
pub open spec fn spec_is_protobuf(schema_encoding: Seq<char>, message_encoding: Seq<char>) -> bool {
    schema_encoding == "protobuf"@ && message_encoding == "protobuf"@
}

/// The video kind named exactly by a schema name under its encodings.
pub open spec fn spec_classify_video(
    schema_name: Seq<char>,
    schema_encoding: Seq<char>,
    message_encoding: Seq<char>,
) -> Option<VideoMessageKind> {
    if spec_is_ros2_cdr(schema_encoding, message_encoding) {
        if schema_name == "sensor_msgs/msg/Image"@ || schema_name == "sensor_msgs/Image"@ {
            Some(VideoMessageKind::Ros2Image)
        } else if schema_name == "sensor_msgs/msg/CompressedImage"@ || schema_name
            == "sensor_msgs/CompressedImage"@ {
            Some(VideoMessageKind::Ros2CompressedImage)
        } else {
            None
        }
    } else if spec_is_protobuf(schema_encoding, message_encoding) {
        if schema_name == "foxglove.CompressedImage"@ {
            Some(VideoMessageKind::FoxgloveCompressedImageProto)
        } else if schema_name == "foxglove.CompressedVideo"@ {
            Some(VideoMessageKind::FoxgloveCompressedVideoProto)
        } else {
            None
        }
    } else {
        None
    }
}

/// The metadata kind named exactly by a schema name under its encodings.
pub open spec fn spec_classify_metadata(
    schema_name: Seq<char>,
    schema_encoding: Seq<char>,
    message_encoding: Seq<char>,
) -> Option<MetadataMessageKind> {
    if !spec_is_ros2_cdr(schema_encoding, message_encoding) {
        None
    } else if schema_name == "sensor_msgs/msg/CameraInfo"@ || schema_name
        == "sensor_msgs/CameraInfo"@ {
        Some(MetadataMessageKind::CameraInfo)
    } else if schema_name == "tf2_msgs/msg/TFMessage"@ || schema_name == "tf2_msgs/TFMessage"@ {
        Some(MetadataMessageKind::TFMessage)
    } else {
        None
    }
}

impl VideoMessageKind {
    pub fn from_topic_schema(schema: &TopicSchema) -> (r: Option<Self>)
        ensures
            r == spec_classify_video(
                schema.schema_name@,
                schema.schema_encoding@,
                schema.message_encoding@,
            ),
    {
        classify_video_message(
            schema.schema_name.as_str(),
            schema.schema_encoding.as_str(),
            schema.message_encoding.as_str(),
        )
    }

    /// Human-readable name of the kind.
    pub fn display_name(self) -> (r: &'static str)
        ensures
            self == VideoMessageKind::Ros2Image ==> r@ == "ROS2 Image"@,
            self == VideoMessageKind::Ros2CompressedImage ==> r@ == "ROS2 CompressedImage"@,
            self == VideoMessageKind::FoxgloveCompressedImageProto ==> r@
                == "Foxglove CompressedImage"@,
            self == VideoMessageKind::FoxgloveCompressedVideoProto ==> r@
                == "Foxglove CompressedVideo"@,
    {
        match self {
            VideoMessageKind::Ros2Image => "ROS2 Image",
            VideoMessageKind::Ros2CompressedImage => "ROS2 CompressedImage",
            VideoMessageKind::FoxgloveCompressedImageProto => "Foxglove CompressedImage",
            VideoMessageKind::FoxgloveCompressedVideoProto => "Foxglove CompressedVideo",
        }
    }

    /// Every kind but compressed video carries still images.
    pub fn is_exportable_image(self) -> (r: bool)
        ensures
            r == (self != VideoMessageKind::FoxgloveCompressedVideoProto),
    {
        match self {
            VideoMessageKind::FoxgloveCompressedVideoProto => false,
            _ => true,
        }
    }
}

impl MetadataMessageKind {
    pub fn from_topic_schema(schema: &TopicSchema) -> (r: Option<Self>)
        ensures
            r == spec_classify_metadata(
                schema.schema_name@,
                schema.schema_encoding@,
                schema.message_encoding@,
            ),
    {
        let schema_name = schema.schema_name.as_str();
        if !is_ros2_cdr(schema.schema_encoding.as_str(), schema.message_encoding.as_str()) {
            return None;
        }
        if str_is(schema_name, "sensor_msgs/msg/CameraInfo") || str_is(
            schema_name,
            "sensor_msgs/CameraInfo",
        ) {
            Some(MetadataMessageKind::CameraInfo)
        } else if str_is(schema_name, "tf2_msgs/msg/TFMessage") || str_is(
            schema_name,
            "tf2_msgs/TFMessage",
        ) {
            Some(MetadataMessageKind::TFMessage)
        } else {
            None
        }
    }
}

fn classify_video_message(schema_name: &str, schema_encoding: &str, message_encoding: &str) -> (r:
    Option<VideoMessageKind>)
    ensures
        r == spec_classify_video(schema_name@, schema_encoding@, message_encoding@),
{
    if is_ros2_cdr(schema_encoding, message_encoding) {
        if str_is(schema_name, "sensor_msgs/msg/Image") || str_is(schema_name, "sensor_msgs/Image") {
            return Some(VideoMessageKind::Ros2Image);
        } else if str_is(schema_name, "sensor_msgs/msg/CompressedImage") || str_is(
            schema_name,
            "sensor_msgs/CompressedImage",
        ) {
            return Some(VideoMessageKind::Ros2CompressedImage);
        } else {
            return None;
        }
    }
    if is_protobuf(schema_encoding, message_encoding) {
        if str_is(schema_name, "foxglove.CompressedImage") {
            return Some(VideoMessageKind::FoxgloveCompressedImageProto);
        } else if str_is(schema_name, "foxglove.CompressedVideo") {
            return Some(VideoMessageKind::FoxgloveCompressedVideoProto);
        } else {
            return None;
        }
    }
    None
}

fn is_ros2_cdr(schema_encoding: &str, message_encoding: &str) -> (r: bool)
    ensures
        r == spec_is_ros2_cdr(schema_encoding@, message_encoding@),
{
    str_is(schema_encoding, "ros2msg") && str_is(message_encoding, "cdr")
}

fn is_protobuf(schema_encoding: &str, message_encoding: &str) -> (r: bool)
    ensures
        r == spec_is_protobuf(schema_encoding@, message_encoding@),
{
    str_is(schema_encoding, "protobuf") && str_is(message_encoding, "protobuf")
}

} // verus!
