use mcap2vid::foxglove_proto::{
    parse_compressed_image, parse_compressed_image_timestamp, parse_compressed_video,
    parse_compressed_video_timestamp, ProtoError,
};

fn timestamp_field() -> Vec<u8> {
    let mut timestamp = Vec::new();
    timestamp.extend_from_slice(&[0x08, 0x7b]); // seconds = 123
    timestamp.extend_from_slice(&[0x10, 0x80, 0xca, 0xb5, 0xee, 0x01]); // nanos = 500000000
    timestamp
}

#[test]
fn parses_foxglove_compressed_image() {
    let timestamp = timestamp_field();

    let mut msg = Vec::new();
    msg.extend_from_slice(&[0x0a, timestamp.len() as u8]);
    msg.extend_from_slice(&timestamp);
    msg.extend_from_slice(&[0x12, 0x03]);
    msg.extend_from_slice(b"cam");
    msg.extend_from_slice(&[0x1a, 0x03]);
    msg.extend_from_slice(&[1, 2, 3]);
    msg.extend_from_slice(&[0x22, 0x04]);
    msg.extend_from_slice(b"jpeg");

    let parsed = parse_compressed_image(&msg).unwrap();
    assert_eq!(parsed.header.stamp.sec, 123);
    assert_eq!(parsed.header.stamp.nanosec, 500_000_000);
    assert_eq!(parsed.header.frame_id, "cam");
    assert_eq!(parsed.format, "jpeg");
    assert_eq!(parsed.data, vec![1, 2, 3]);
}

#[test]
fn parses_foxglove_compressed_video() {
    let timestamp = timestamp_field();

    let mut msg = Vec::new();
    msg.extend_from_slice(&[0x0a, timestamp.len() as u8]);
    msg.extend_from_slice(&timestamp);
    msg.extend_from_slice(&[0x12, 0x03]);
    msg.extend_from_slice(b"cam");
    msg.extend_from_slice(&[0x1a, 0x04]);
    msg.extend_from_slice(&[0, 0, 0, 1]);
    msg.extend_from_slice(&[0x22, 0x04]);
    msg.extend_from_slice(b"h264");

    let parsed = parse_compressed_video(&msg).unwrap();
    assert_eq!(parsed.timestamp.sec, 123);
    assert_eq!(parsed.timestamp.nanosec, 500_000_000);
    assert_eq!(parsed.frame_id, "cam");
    assert_eq!(parsed.format, "h264");
    assert_eq!(parsed.data, vec![0, 0, 0, 1]);
}

#[test]
fn video_timestamp_alone_is_read() {
    let timestamp = timestamp_field();
    let mut msg = Vec::new();
    msg.extend_from_slice(&[0x0a, timestamp.len() as u8]);
    msg.extend_from_slice(&timestamp);
    let t = parse_compressed_video_timestamp(&msg).unwrap();
    assert_eq!(t.sec, 123);
    assert_eq!(t.nanosec, 500_000_000);
    let t2 = parse_compressed_image_timestamp(&msg).unwrap();
    assert_eq!(t2.sec, 123);
}

#[test]
fn image_without_data_is_refused() {
    let timestamp = timestamp_field();
    let mut msg = Vec::new();
    msg.extend_from_slice(&[0x0a, timestamp.len() as u8]);
    msg.extend_from_slice(&timestamp);
    msg.extend_from_slice(&[0x22, 0x04]);
    msg.extend_from_slice(b"jpeg");
    assert!(matches!(parse_compressed_image(&msg), Err(ProtoError::EmptyData)));
}

#[test]
fn image_without_timestamp_has_zero_stamp() {
    let mut msg = Vec::new();
    msg.extend_from_slice(&[0x1a, 0x01, 7]);
    msg.extend_from_slice(&[0x22, 0x03]);
    msg.extend_from_slice(b"png");
    let parsed = parse_compressed_image(&msg).unwrap();
    assert_eq!((parsed.header.stamp.sec, parsed.header.stamp.nanosec), (0, 0));
    assert_eq!(parsed.format, "png");
    assert!(matches!(parse_compressed_image_timestamp(&msg), Err(ProtoError::MissingTimestamp)));
}

#[test]
fn truncated_field_is_refused() {
    let msg = vec![0x1a, 0x05, 1, 2];
    assert!(matches!(parse_compressed_image(&msg), Err(ProtoError::TruncatedLengthDelimited)));
}

#[test]
fn blank_format_is_refused() {
    let timestamp = timestamp_field();
    let mut msg = Vec::new();
    msg.extend_from_slice(&[0x0a, timestamp.len() as u8]);
    msg.extend_from_slice(&timestamp);
    msg.extend_from_slice(&[0x1a, 0x01, 9]);
    msg.extend_from_slice(&[0x22, 0x02]);
    msg.extend_from_slice(b"  ");
    assert!(matches!(parse_compressed_video(&msg), Err(ProtoError::EmptyFormat)));
}

#[test]
fn unicode_blank_format_is_refused() {
    let timestamp = timestamp_field();
    let mut msg = Vec::new();
    msg.extend_from_slice(&[0x0a, timestamp.len() as u8]);
    msg.extend_from_slice(&timestamp);
    msg.extend_from_slice(&[0x1a, 0x01, 9]);
    let blank = "\u{3000}\t";
    msg.extend_from_slice(&[0x22, blank.len() as u8]);
    msg.extend_from_slice(blank.as_bytes());
    assert!(matches!(parse_compressed_video(&msg), Err(ProtoError::EmptyFormat)));
}

fn image_message() -> Vec<u8> {
    let timestamp = timestamp_field();
    let mut msg = Vec::new();
    msg.extend_from_slice(&[0x0a, timestamp.len() as u8]);
    msg.extend_from_slice(&timestamp);
    msg.extend_from_slice(&[0x12, 0x03]);
    msg.extend_from_slice(b"cam");
    msg.extend_from_slice(&[0x1a, 0x04]);
    msg.extend_from_slice(&[0, 0, 0, 1]);
    msg.extend_from_slice(&[0x22, 0x04]);
    msg.extend_from_slice(b"h264");
    msg
}

#[test]
fn unread_fields_are_skipped() {
    let msg = image_message();
    let plain = parse_compressed_video(&msg).unwrap();
    // An unknown field number (5), then a known number (3) as a varint.
    for extra in [[0x28u8, 0x05], [0x18, 0x01]] {
        let mut longer = msg.clone();
        longer.extend_from_slice(&extra);
        let v = parse_compressed_video(&longer).unwrap();
        assert_eq!((v.timestamp.sec, v.timestamp.nanosec), (plain.timestamp.sec, plain.timestamp.nanosec));
        assert_eq!(v.frame_id, plain.frame_id);
        assert_eq!(v.format, plain.format);
        assert_eq!(v.data, plain.data);
        let img = parse_compressed_image(&longer).unwrap();
        assert_eq!(img.header.frame_id, "cam");
        assert_eq!(img.data, vec![0, 0, 0, 1]);
    }
}

#[test]
fn last_occurrence_of_a_field_wins() {
    let mut msg = image_message();
    msg.extend_from_slice(&[0x12, 0x01, b'x']);
    let img = parse_compressed_image(&msg).unwrap();
    assert_eq!(img.header.frame_id, "x");
    assert_eq!((img.header.stamp.sec, img.header.stamp.nanosec), (123, 500_000_000));
    assert_eq!(img.format, "h264");
    assert_eq!(img.data, vec![0, 0, 0, 1]);
    let v = parse_compressed_video(&msg).unwrap();
    assert_eq!(v.frame_id, "x");
}
