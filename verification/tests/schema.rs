use mcap2vid::schema::{MetadataMessageKind, TopicSchema, VideoMessageKind};

#[test]
fn classifies_ros2_image_exactly() {
    let schema = TopicSchema::new("sensor_msgs/msg/Image", "ros2msg", "cdr");
    assert_eq!(
        VideoMessageKind::from_topic_schema(&schema),
        Some(VideoMessageKind::Ros2Image)
    );
}

#[test]
fn classifies_foxglove_video_exactly() {
    let schema = TopicSchema::new("foxglove.CompressedVideo", "protobuf", "protobuf");
    assert_eq!(
        VideoMessageKind::from_topic_schema(&schema),
        Some(VideoMessageKind::FoxgloveCompressedVideoProto)
    );
}

#[test]
fn does_not_treat_foxglove_compressed_video_as_image() {
    let schema = TopicSchema::new("foxglove.CompressedVideo", "ros2msg", "cdr");
    assert_eq!(VideoMessageKind::from_topic_schema(&schema), None);
}

#[test]
fn classifies_ros2_compressed_image() {
    let schema = TopicSchema::new("sensor_msgs/msg/CompressedImage", "ros2msg", "cdr");
    let kind = VideoMessageKind::from_topic_schema(&schema);
    assert_eq!(kind, Some(VideoMessageKind::Ros2CompressedImage));
    assert!(kind.unwrap().is_exportable_image());
}

#[test]
fn classifies_metadata_kinds() {
    let info = TopicSchema::new("sensor_msgs/msg/CameraInfo", "ros2msg", "cdr");
    assert_eq!(MetadataMessageKind::from_topic_schema(&info), Some(MetadataMessageKind::CameraInfo));
    let tf = TopicSchema::new("tf2_msgs/msg/TFMessage", "ros2msg", "cdr");
    assert_eq!(MetadataMessageKind::from_topic_schema(&tf), Some(MetadataMessageKind::TFMessage));
    let other = TopicSchema::new("std_msgs/msg/String", "ros2msg", "cdr");
    assert_eq!(MetadataMessageKind::from_topic_schema(&other), None);
}

#[test]
fn video_is_not_an_exportable_image() {
    assert!(!VideoMessageKind::FoxgloveCompressedVideoProto.is_exportable_image());
    assert_eq!(VideoMessageKind::Ros2Image.display_name(), VideoMessageKind::Ros2Image.display_name());
}
