use std::io::Cursor;

use mcap2vid::cli::MetadataAction;
use mcap2vid::decoder::{bytes_per_pixel, collect_decoded, decode_frame, frame_fits, DecodeError, DecodedFrame};
use mcap2vid::encoder::{
    append_bounded, frame_size, get_frame_dimensions, validate_frame_dimensions,
    FrameDimensionError, STDERR_TAIL_LIMIT,
};
use mcap2vid::export::{filter_transforms, schema_type_label};
use mcap2vid::mcap_reader::{FrameData, VideoFrame};
use mcap2vid::ros2_msgs::{Header, TFMessage, Time, Transform, TransformStamped, Quaternion, Vector3};
use mcap2vid::timestamp::{
    build_ftss_atom, find_atom, ftss_truncated, read_timestamps, timestamp_rows, FtssError,
    TimestampRow,
};

fn raw_frame(encoding: &str, width: u32, height: u32, step: u32, data: Vec<u8>) -> VideoFrame {
    VideoFrame {
        stamp: Time { sec: 1, nanosec: 2 },
        sequence: 3,
        data: FrameData::Raw { width, height, encoding: encoding.to_string(), step, data },
    }
}

#[test]
fn decodes_raw_layouts() {
    let f = raw_frame("bgr8", 2, 1, 6, vec![1, 2, 3, 4, 5, 6]);
    assert!(frame_fits(&f));
    let d = decode_frame(&f).unwrap();
    assert_eq!((d.width, d.height, d.sequence), (2, 1, 3));
    assert_eq!(d.rgb_data, vec![3, 2, 1, 6, 5, 4]);
    let mono = raw_frame("mono16", 2, 1, 4, vec![0x10, 0x20, 0x30, 0x40]);
    assert_eq!(decode_frame(&mono).unwrap().rgb_data, vec![0x20, 0x20, 0x20, 0x40, 0x40, 0x40]);
    // Rows with padding beyond the pixels are skipped over.
    let padded = raw_frame("rgba8", 1, 2, 5, vec![1, 2, 3, 4, 0, 5, 6, 7, 8, 0]);
    assert_eq!(decode_frame(&padded).unwrap().rgb_data, vec![1, 2, 3, 5, 6, 7]);
}

#[test]
fn raw_decoding_errors() {
    let short = raw_frame("rgb8", 2, 2, 6, vec![0; 10]);
    assert!(matches!(
        decode_frame(&short),
        Err(DecodeError::InsufficientData { got: 10, need: 12 })
    ));
    // A frame too large to convert is still refused for its missing data.
    let huge = raw_frame("rgb8", u32::MAX, u32::MAX, 1, Vec::new());
    assert!(frame_fits(&huge));
    assert!(matches!(
        decode_frame(&huge),
        Err(DecodeError::InsufficientData { got: 0, need: 4294967295 })
    ));
    let empty = raw_frame("rgb8", 4, 0, 0, Vec::new());
    let d = decode_frame(&empty).unwrap();
    assert_eq!((d.width, d.height, d.rgb_data.len()), (4, 0, 0));
    let odd = raw_frame("yuv422", 1, 1, 2, vec![0; 2]);
    assert!(matches!(decode_frame(&odd), Err(DecodeError::UnsupportedEncoding(e)) if e == "yuv422"));
    assert_eq!(bytes_per_pixel("mono8"), Some(1));
    assert_eq!(bytes_per_pixel("bgra8"), Some(4));
    assert_eq!(bytes_per_pixel("yuv422"), None);
}

#[test]
fn decodes_png_frames() {
    let img = image::RgbImage::from_raw(2, 1, vec![10, 20, 30, 40, 50, 60]).unwrap();
    let mut png = Cursor::new(Vec::new());
    img.write_to(&mut png, image::ImageFormat::Png).unwrap();
    let f = VideoFrame {
        stamp: Time { sec: 0, nanosec: 0 },
        sequence: 0,
        data: FrameData::Compressed { format: "png".to_string(), data: png.into_inner() },
    };
    let d = decode_frame(&f).unwrap();
    assert_eq!((d.width, d.height), (2, 1));
    assert_eq!(d.rgb_data, vec![10, 20, 30, 40, 50, 60]);
    let bad = VideoFrame {
        stamp: Time { sec: 0, nanosec: 0 },
        sequence: 0,
        data: FrameData::Compressed { format: "jpeg".to_string(), data: vec![1, 2, 3] },
    };
    assert!(matches!(decode_frame(&bad), Err(DecodeError::Image)));
}

fn decoded(seq: u64, w: u32, h: u32, n: usize) -> DecodedFrame {
    DecodedFrame { stamp: Time { sec: 0, nanosec: 0 }, sequence: seq, width: w, height: h, rgb_data: vec![0; n] }
}

#[test]
fn collects_in_sequence_order_or_first_error() {
    let ok = collect_decoded(vec![Ok(decoded(2, 1, 1, 3)), Ok(decoded(0, 1, 1, 3)), Ok(decoded(1, 1, 1, 3))]).unwrap();
    let seqs: Vec<u64> = ok.iter().map(|f| f.sequence).collect();
    assert_eq!(seqs, vec![0, 1, 2]);
    let err = collect_decoded(vec![
        Ok(decoded(0, 1, 1, 3)),
        Err(DecodeError::Image),
        Err(DecodeError::InsufficientData { got: 1, need: 2 }),
    ]);
    assert!(matches!(err, Err(DecodeError::Image)));
}

#[test]
fn validates_frame_dimensions() {
    assert!(validate_frame_dimensions(&[]).is_ok());
    assert_eq!(get_frame_dimensions(&[]), None);
    let frames = vec![decoded(0, 2, 1, 6), decoded(1, 2, 1, 6)];
    assert!(validate_frame_dimensions(&frames).is_ok());
    assert_eq!(get_frame_dimensions(&frames), Some((2, 1)));
    let mixed = vec![decoded(0, 2, 1, 6), decoded(1, 1, 2, 6)];
    assert_eq!(
        validate_frame_dimensions(&mixed),
        Err(FrameDimensionError::Inconsistent { index: 1, width: 1, height: 2, expected_width: 2, expected_height: 1 })
    );
    let short = vec![decoded(0, 2, 1, 6), decoded(1, 2, 1, 5)];
    assert_eq!(
        validate_frame_dimensions(&short),
        Err(FrameDimensionError::WrongSize { index: 1, size: 5, expected: 6, width: 2, height: 1 })
    );
    assert_eq!(frame_size(1920, 1080), Some(6_220_800));
}

#[test]
fn keeps_the_tail_of_diagnostics() {
    let mut buf = vec![1u8, 2, 3];
    append_bounded(&mut buf, &[4, 5], 4);
    assert_eq!(buf, vec![2, 3, 4, 5]);
    append_bounded(&mut buf, &[6], 10);
    assert_eq!(buf, vec![2, 3, 4, 5, 6]);
    let mut big = vec![0u8; STDERR_TAIL_LIMIT];
    append_bounded(&mut big, &[9; 4096], STDERR_TAIL_LIMIT);
    assert_eq!(big.len(), STDERR_TAIL_LIMIT);
    assert_eq!(big[STDERR_TAIL_LIMIT - 1], 9);
}

#[test]
fn ftss_atom_roundtrip() {
    let ts: Vec<u64> = vec![1.5f64.to_bits(), 1_700_000_000.25f64.to_bits()];
    let atom = build_ftss_atom(&ts);
    assert_eq!(atom.len(), 13 + 16);
    assert_eq!(&atom[0..8], &[0, 0, 0, 29, b'F', b'T', b'S', b'S']);
    let mut file = vec![0, 0, 0, 8, b'f', b'r', b'e', b'e'];
    file.extend_from_slice(&atom);
    assert!(!ftss_truncated(&file));
    assert_eq!(find_atom(&file, b"FTSS", 0), Some((8, 29)));
    assert_eq!(read_timestamps(&file).unwrap(), ts);
}

#[test]
fn ftss_errors() {
    let plain = vec![0, 0, 0, 8, b'm', b'o', b'o', b'v'];
    assert_eq!(read_timestamps(&plain), Err(FtssError::NotFound));
    let mut atom = build_ftss_atom(&[7]);
    atom[8] = 2;
    assert_eq!(read_timestamps(&atom), Err(FtssError::UnsupportedVersion(2)));
    let small = vec![0, 0, 0, 12, b'F', b'T', b'S', b'S', 1, 0, 0, 0];
    assert_eq!(read_timestamps(&small), Err(FtssError::TooSmall));
}

fn tf(parent: &str, child: &str) -> TransformStamped {
    TransformStamped {
        header: Header { stamp: Time { sec: 0, nanosec: 0 }, frame_id: parent.to_string() },
        child_frame_id: child.to_string(),
        transform: Transform {
            translation: Vector3 { x: 0, y: 0, z: 0 },
            rotation: Quaternion { x: 0, y: 0, z: 0, w: 1.0f64.to_bits() },
        },
    }
}

fn pairs(ts: &[TransformStamped]) -> Vec<(String, String)> {
    ts.iter().map(|t| (t.header.frame_id.clone(), t.child_frame_id.clone())).collect()
}

#[test]
fn filters_transforms_by_frame() {
    let msgs = || {
        vec![
            TFMessage { transforms: vec![tf("base_link", "camera"), tf("map", "base_link")] },
            TFMessage { transforms: vec![tf("base_link", "lidar")] },
        ]
    };
    assert_eq!(filter_transforms(msgs(), None, None).len(), 3);
    let by_parent = filter_transforms(msgs(), Some("base_link"), None);
    assert_eq!(pairs(&by_parent), vec![
        ("base_link".to_string(), "camera".to_string()),
        ("base_link".to_string(), "lidar".to_string()),
    ]);
    let both = filter_transforms(msgs(), Some("base_link"), Some("lidar"));
    assert_eq!(pairs(&both), vec![("base_link".to_string(), "lidar".to_string())]);
    assert!(filter_transforms(msgs(), None, Some("nothing")).is_empty());
}

#[test]
fn labels_schema_types() {
    assert_eq!(schema_type_label("sensor_msgs/msg/Image"), "Image");
    assert_eq!(schema_type_label("foxglove.CompressedVideo"), "foxglove.CompressedVideo");
    assert_eq!(schema_type_label("trailing/"), "");
}

#[test]
fn metadata_actions_are_plain_values() {
    let a = MetadataAction::List { input: "r.mcap".to_string() };
    assert_eq!(a.clone(), a);
}

fn frames_of(rows: &[TimestampRow]) -> Vec<String> {
    rows.iter()
        .map(|r| match r {
            TimestampRow::Frame { index, prev } => format!("{}<{}", index, prev),
            TimestampRow::Gap => "...".to_string(),
        })
        .collect()
}

#[test]
fn lists_first_and_last_timestamps() {
    assert!(timestamp_rows(0, false).is_empty());
    assert_eq!(frames_of(&timestamp_rows(3, false)), vec!["0<0", "1<0", "2<1"]);
    assert_eq!(
        frames_of(&timestamp_rows(12, false)),
        vec!["0<0", "1<0", "2<1", "3<2", "4<3", "...", "7<6", "8<7", "9<8", "10<9", "11<10"]
    );
    // Between six and ten rows the two ends overlap.
    assert_eq!(
        frames_of(&timestamp_rows(7, false)),
        vec!["0<0", "1<0", "2<1", "3<2", "4<3", "2<1", "3<2", "4<3", "5<4", "6<5"]
    );
    assert_eq!(timestamp_rows(12, true).len(), 12);
}

#[test]
fn both_frame_filters_equal_one_after_the_other() {
    let msgs = || {
        vec![TFMessage {
            transforms: vec![tf("base_link", "camera"), tf("map", "lidar"), tf("base_link", "lidar")],
        }]
    };
    let both = filter_transforms(msgs(), Some("base_link"), Some("lidar"));
    let by_parent = filter_transforms(msgs(), Some("base_link"), None);
    let then_child = filter_transforms(vec![TFMessage { transforms: by_parent }], None, Some("lidar"));
    assert_eq!(pairs(&both), pairs(&then_child));
}
