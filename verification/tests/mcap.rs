use std::collections::BTreeMap;
use std::io::Cursor;

use mcap2vid::mcap_index::{
    extract_messages_from_chunk, extract_messages_from_records, footer_size, parse_footer,
    parse_summary, ChunkError, FooterError,
};
use mcap2vid::mcap_reader::{
    extract_frames_from, FrameBatcher, FrameData, McapMessage, McapReader, ReaderError,
};
use mcap2vid::ros2_msgs::{
    parse_camera_info, parse_compressed_image, parse_image, parse_tf_message, CdrError,
    ImageMessageType, MetadataMessageType,
};

/// A CDR body under construction, aligned relative to its start.
struct Cdr {
    buf: Vec<u8>,
}

impl Cdr {
    fn new() -> Self {
        Cdr { buf: Vec::new() }
    }
    fn align(&mut self, n: usize) {
        while self.buf.len() % n != 0 {
            self.buf.push(0);
        }
    }
    fn u8(&mut self, v: u8) {
        self.buf.push(v);
    }
    fn u32(&mut self, v: u32) {
        self.buf.extend_from_slice(&v.to_le_bytes());
    }
    fn f64(&mut self, v: f64) {
        self.buf.extend_from_slice(&v.to_le_bytes());
    }
    fn string(&mut self, s: &str) {
        self.align(4);
        self.u32(s.len() as u32 + 1);
        self.buf.extend_from_slice(s.as_bytes());
        self.buf.push(0);
    }
    fn bytes(&mut self, b: &[u8]) {
        self.align(4);
        self.u32(b.len() as u32);
        self.buf.extend_from_slice(b);
    }
    fn header(&mut self, sec: i32, nanosec: u32, frame_id: &str) {
        self.u32(sec as u32);
        self.u32(nanosec);
        self.string(frame_id);
    }
    fn finish(self) -> Vec<u8> {
        let mut out = vec![0, 1, 0, 0];
        out.extend_from_slice(&self.buf);
        out
    }
}

fn compressed_image_cdr(sec: i32, nanosec: u32, format: &str, data: &[u8]) -> Vec<u8> {
    let mut c = Cdr::new();
    c.header(sec, nanosec, "cam");
    c.string(format);
    c.bytes(data);
    c.finish()
}

fn image_cdr(sec: i32, nanosec: u32, width: u32, height: u32, encoding: &str, data: &[u8]) -> Vec<u8> {
    let mut c = Cdr::new();
    c.header(sec, nanosec, "cam");
    c.align(4);
    c.u32(height);
    c.u32(width);
    c.string(encoding);
    c.u8(0);
    c.align(4);
    c.u32(width * 3);
    c.bytes(data);
    c.finish()
}

fn camera_info_cdr(width: u32, height: u32) -> Vec<u8> {
    let mut c = Cdr::new();
    c.header(5, 6, "optical");
    c.align(4);
    c.u32(height);
    c.u32(width);
    c.string("plumb_bob");
    c.align(4);
    c.u32(2);
    c.align(8);
    c.f64(0.5);
    c.f64(-0.25);
    for i in 0..9 {
        c.f64(i as f64);
    }
    for i in 0..9 {
        c.f64(if i % 4 == 0 { 1.0 } else { 0.0 });
    }
    for i in 0..12 {
        c.f64(i as f64 * 2.0);
    }
    c.align(4);
    c.u32(1);
    c.u32(2);
    c.u32(3);
    c.u32(4);
    c.u32(5);
    c.u32(6);
    c.u8(1);
    c.finish()
}

fn tf_cdr(pairs: &[(&str, &str)]) -> Vec<u8> {
    let mut c = Cdr::new();
    c.u32(pairs.len() as u32);
    for (i, (parent, child)) in pairs.iter().enumerate() {
        c.header(10 + i as i32, 0, parent);
        c.string(child);
        c.align(8);
        c.f64(1.0);
        c.f64(2.0);
        c.f64(3.0);
        c.f64(0.0);
        c.f64(0.0);
        c.f64(0.0);
        c.f64(1.0);
    }
    c.finish()
}

/// A recording with a compressed-image topic, a raw-image topic, camera info
/// and transforms.
fn sample_recording() -> Vec<u8> {
    let mut cursor = Cursor::new(Vec::new());
    {
        let mut w = mcap::Writer::new(&mut cursor).unwrap();
        let meta = BTreeMap::new();
        let s_comp = w.add_schema("sensor_msgs/msg/CompressedImage", "ros2msg", b"").unwrap();
        let s_raw = w.add_schema("sensor_msgs/msg/Image", "ros2msg", b"").unwrap();
        let s_info = w.add_schema("sensor_msgs/msg/CameraInfo", "ros2msg", b"").unwrap();
        let s_tf = w.add_schema("tf2_msgs/msg/TFMessage", "ros2msg", b"").unwrap();
        let c_comp = w.add_channel(s_comp, "/front/compressed", "cdr", &meta).unwrap();
        let c_raw = w.add_channel(s_raw, "/front/raw", "cdr", &meta).unwrap();
        let c_info = w.add_channel(s_info, "/front/camera_info", "cdr", &meta).unwrap();
        let c_tf = w.add_channel(s_tf, "/tf", "cdr", &meta).unwrap();
        let mut seq = 0u32;
        let mut put = |w: &mut mcap::Writer<&mut Cursor<Vec<u8>>>, ch: u16, t: u64, data: &[u8]| {
            seq += 1;
            let header = mcap::records::MessageHeader {
                channel_id: ch,
                sequence: seq,
                log_time: t,
                publish_time: t,
            };
            w.write_to_known_channel(&header, data).unwrap();
        };
        // Compressed frames, out of time order.
        put(&mut w, c_comp, 100, &compressed_image_cdr(20, 0, "jpeg", &[2]));
        put(&mut w, c_comp, 200, &compressed_image_cdr(10, 500, "jpeg", &[1]));
        put(&mut w, c_comp, 300, &compressed_image_cdr(30, 0, "jpeg", &[3]));
        put(&mut w, c_raw, 150, &image_cdr(7, 0, 1, 1, "rgb8", &[9, 8, 7]));
        put(&mut w, c_info, 160, &camera_info_cdr(640, 480));
        put(&mut w, c_info, 170, &camera_info_cdr(320, 240));
        put(&mut w, c_tf, 180, &tf_cdr(&[("base_link", "camera"), ("map", "base_link")]));
        put(&mut w, c_tf, 190, &tf_cdr(&[("base_link", "lidar")]));
        w.finish().unwrap();
    }
    cursor.into_inner()
}

#[test]
fn lists_video_topics_sorted_with_counts() {
    let reader = McapReader::from_bytes(sample_recording());
    let topics = reader.list_video_topics().unwrap();
    assert_eq!(topics.len(), 2);
    assert_eq!(topics[0].name, "/front/compressed");
    assert_eq!(topics[0].schema_name, "sensor_msgs/msg/CompressedImage");
    assert_eq!(topics[0].message_count, 3);
    assert_eq!(topics[0].message_type, Some(ImageMessageType::CompressedImage));
    assert_eq!(topics[1].name, "/front/raw");
    assert_eq!(topics[1].message_count, 1);
    assert_eq!(topics[1].message_type, Some(ImageMessageType::Image));
}

#[test]
fn lists_metadata_topics_sorted_with_counts() {
    let reader = McapReader::from_bytes(sample_recording());
    let topics = reader.list_metadata_topics().unwrap();
    assert_eq!(topics.len(), 2);
    assert_eq!(topics[0].name, "/front/camera_info");
    assert_eq!(topics[0].message_count, 2);
    assert_eq!(topics[0].message_type, MetadataMessageType::CameraInfo);
    assert_eq!(topics[1].name, "/tf");
    assert_eq!(topics[1].message_type, MetadataMessageType::TFMessage);
}

#[test]
fn extracts_frames_sorted_by_time() {
    let reader = McapReader::from_bytes(sample_recording());
    let frames = reader.extract_frames("/front/compressed").unwrap();
    assert_eq!(frames.len(), 3);
    let stamps: Vec<(i32, u32)> = frames.iter().map(|f| (f.stamp.sec, f.stamp.nanosec)).collect();
    assert_eq!(stamps, vec![(10, 500), (20, 0), (30, 0)]);
    // Numbers follow stream order.
    let seqs: Vec<u64> = frames.iter().map(|f| f.sequence).collect();
    assert_eq!(seqs, vec![1, 0, 2]);
    match &frames[0].data {
        FrameData::Compressed { format, data } => {
            assert_eq!(format, "jpeg");
            assert_eq!(data, &vec![1u8]);
        }
        _ => panic!("expected a compressed frame"),
    }
}

#[test]
fn extracts_raw_frame() {
    let reader = McapReader::from_bytes(sample_recording());
    let frames = reader.extract_frames("/front/raw").unwrap();
    assert_eq!(frames.len(), 1);
    match &frames[0].data {
        FrameData::Raw { width, height, encoding, step, data } => {
            assert_eq!((*width, *height, *step), (1, 1, 3));
            assert_eq!(encoding, "rgb8");
            assert_eq!(data, &vec![9u8, 8, 7]);
        }
        _ => panic!("expected a raw frame"),
    }
}

#[test]
fn missing_topic_has_no_frames() {
    let reader = McapReader::from_bytes(sample_recording());
    assert!(matches!(
        reader.extract_frames("/nope"),
        Err(ReaderError::NoFrames { topic }) if topic == "/nope"
    ));
    assert!(matches!(reader.scan_topic("/nope"), Err(ReaderError::NoFrames { .. })));
    assert!(matches!(reader.extract_first_frame("/nope"), Err(ReaderError::NoFrames { .. })));
}

#[test]
fn non_image_topic_is_refused() {
    let reader = McapReader::from_bytes(sample_recording());
    match reader.extract_frames("/tf") {
        Err(ReaderError::NotImageTopic { topic, schema_name }) => {
            assert_eq!(topic, "/tf");
            assert_eq!(schema_name, "tf2_msgs/msg/TFMessage");
        }
        other => panic!("unexpected {:?}", other.map(|v| v.len())),
    }
}

#[test]
fn scans_topic_counts_and_time_range() {
    let reader = McapReader::from_bytes(sample_recording());
    let scan = reader.scan_topic("/front/compressed").unwrap();
    assert_eq!(scan.count, 3);
    assert_eq!(scan.first_log_time_ns, 100);
    assert_eq!(scan.last_log_time_ns, 300);
}

#[test]
fn first_frame_is_first_in_stream() {
    let reader = McapReader::from_bytes(sample_recording());
    let f = reader.extract_first_frame("/front/compressed").unwrap();
    assert_eq!(f.sequence, 0);
    assert_eq!(f.stamp.sec, 20);
}

#[test]
fn camera_info_all_and_first() {
    let reader = McapReader::from_bytes(sample_recording());
    let all = reader.extract_camera_info("/front/camera_info", false).unwrap();
    assert_eq!(all.len(), 2);
    assert_eq!(all[0].width, 640);
    assert_eq!(all[1].width, 320);
    assert_eq!(all[0].distortion_model, "plumb_bob");
    assert_eq!(all[0].d, vec![0.5f64.to_bits(), (-0.25f64).to_bits()]);
    assert_eq!(all[0].k[4], 4.0f64.to_bits());
    assert_eq!(all[0].p[11], 22.0f64.to_bits());
    assert_eq!((all[0].binning_x, all[0].binning_y), (1, 2));
    assert_eq!(all[0].roi.width, 6);
    assert!(all[0].roi.do_rectify);
    let first = reader.extract_camera_info("/front/camera_info", true).unwrap();
    assert_eq!(first.len(), 1);
    assert_eq!(first[0].width, 640);
    assert!(matches!(
        reader.extract_camera_info("/nope", true),
        Err(ReaderError::NoCameraInfo { .. })
    ));
}

#[test]
fn tf_messages_in_order() {
    let reader = McapReader::from_bytes(sample_recording());
    let msgs = reader.extract_tf_messages("/tf").unwrap();
    assert_eq!(msgs.len(), 2);
    assert_eq!(msgs[0].transforms.len(), 2);
    assert_eq!(msgs[0].transforms[1].header.frame_id, "map");
    assert_eq!(msgs[0].transforms[1].child_frame_id, "base_link");
    assert_eq!(msgs[1].transforms[0].child_frame_id, "lidar");
    assert_eq!(msgs[0].transforms[0].transform.translation.y, 2.0f64.to_bits());
    assert!(matches!(reader.extract_tf_messages("/nope"), Err(ReaderError::NoTfMessages { .. })));
}

#[test]
fn garbage_yields_only_unreadable_items() {
    let reader = McapReader::from_bytes(vec![1, 2, 3]);
    let items = reader.messages().unwrap();
    assert!(items.iter().all(|i| i.is_none()));
    assert!(reader.list_video_topics().unwrap().is_empty());
}

#[test]
fn batches_hold_the_frames_in_stream_order() {
    let reader = McapReader::from_bytes(sample_recording());
    let items = reader.messages().unwrap();
    let mut batcher = FrameBatcher::new("/front/compressed", 2);
    let mut batches: Vec<Vec<i32>> = Vec::new();
    for item in &items {
        if let Some(batch) = batcher.push(item).unwrap() {
            batches.push(batch.iter().map(|f| f.stamp.sec).collect());
        }
    }
    if let Some(batch) = batcher.finish() {
        batches.push(batch.iter().map(|f| f.stamp.sec).collect());
    }
    assert_eq!(batches, vec![vec![20, 10], vec![30]]);
}

#[test]
fn batch_size_zero_hands_out_single_frames() {
    let reader = McapReader::from_bytes(sample_recording());
    let items = reader.messages().unwrap();
    let mut batcher = FrameBatcher::new("/front/compressed", 0);
    let mut sizes = Vec::new();
    for item in &items {
        if let Some(batch) = batcher.push(item).unwrap() {
            sizes.push(batch.len());
        }
    }
    assert!(batcher.finish().is_none());
    assert_eq!(sizes, vec![1, 1, 1]);
}

#[test]
fn undecodable_frame_is_an_error() {
    let items = vec![Some(McapMessage {
        topic: "/cam".to_string(),
        schema_name: Some("sensor_msgs/msg/CompressedImage".to_string()),
        log_time: 1,
        data: vec![0, 1],
    })];
    assert!(matches!(
        extract_frames_from(&items, "/cam"),
        Err(ReaderError::Cdr(CdrError::TooShort))
    ));
}

#[test]
fn unreadable_items_are_skipped() {
    let items = vec![
        None,
        Some(McapMessage {
            topic: "/cam".to_string(),
            schema_name: Some("sensor_msgs/msg/CompressedImage".to_string()),
            log_time: 1,
            data: compressed_image_cdr(1, 2, "png", &[5]),
        }),
    ];
    let frames = extract_frames_from(&items, "/cam").unwrap();
    assert_eq!(frames.len(), 1);
    assert_eq!(frames[0].sequence, 0);
}

#[test]
fn summary_and_chunks_of_a_recording() {
    let bytes = sample_recording();
    let n = bytes.len();
    let tail = &bytes[n - footer_size() as usize..];
    let footer = parse_footer(tail).unwrap();
    assert!(footer.summary_start > 0);
    let summary_end = n - footer_size() as usize;
    let summary = parse_summary(&bytes[footer.summary_start as usize..summary_end]);
    assert_eq!(summary.channels.len(), 4);
    assert_eq!(summary.schemas.len(), 4);
    assert!(!summary.chunk_indexes.is_empty());
    let comp = summary.channels.iter().find(|c| c.topic == "/front/compressed").unwrap();
    assert_eq!(summary.channel_message_counts.get(&comp.id), Some(&3));
    let ci = &summary.chunk_indexes[0];
    let start = ci.chunk_start_offset as usize;
    let chunk = &bytes[start..start + ci.chunk_length as usize];
    let msgs = extract_messages_from_chunk(chunk, &[comp.id]).unwrap();
    assert_eq!(msgs.len(), 3);
    assert_eq!(msgs[0].log_time, 100);
    let img = parse_compressed_image(&msgs[1].data).unwrap();
    assert_eq!(img.header.stamp.sec, 10);
}

#[test]
fn footer_errors() {
    assert!(matches!(parse_footer(&[0u8; 10]), Err(FooterError::TooShort)));
    assert!(matches!(parse_footer(&[0u8; 37]), Err(FooterError::BadMagic)));
}

#[test]
fn chunk_errors() {
    assert!(matches!(extract_messages_from_chunk(&[6, 0, 0], &[1]), Err(ChunkError::TooShort)));
    let mut not_chunk = vec![5u8];
    not_chunk.extend_from_slice(&[0u8; 20]);
    assert!(matches!(extract_messages_from_chunk(&not_chunk, &[1]), Err(ChunkError::NotChunk(5))));
}

fn message_record(channel: u16, log_time: u64, payload: &[u8]) -> Vec<u8> {
    let mut r = vec![0x05];
    r.extend_from_slice(&((22 + payload.len()) as u64).to_le_bytes());
    r.extend_from_slice(&channel.to_le_bytes());
    r.extend_from_slice(&7u32.to_le_bytes());
    r.extend_from_slice(&log_time.to_le_bytes());
    r.extend_from_slice(&log_time.to_le_bytes());
    r.extend_from_slice(payload);
    r
}

fn chunk_record(compression: &str, records: &[u8]) -> Vec<u8> {
    let mut body = Vec::new();
    body.extend_from_slice(&0u64.to_le_bytes());
    body.extend_from_slice(&0u64.to_le_bytes());
    body.extend_from_slice(&0u64.to_le_bytes());
    body.extend_from_slice(&0u32.to_le_bytes());
    body.extend_from_slice(&(compression.len() as u32).to_le_bytes());
    body.extend_from_slice(compression.as_bytes());
    body.extend_from_slice(&(records.len() as u64).to_le_bytes());
    body.extend_from_slice(records);
    let mut r = vec![0x06];
    r.extend_from_slice(&(body.len() as u64).to_le_bytes());
    r.extend_from_slice(&body);
    r
}

#[test]
fn records_are_filtered_by_channel() {
    let mut records = message_record(1, 10, b"a");
    records.extend_from_slice(&message_record(2, 20, b"bb"));
    records.extend_from_slice(&message_record(1, 30, b"ccc"));
    let msgs = extract_messages_from_records(&records, &[1]);
    assert_eq!(msgs.len(), 2);
    assert_eq!(msgs[1].log_time, 30);
    assert_eq!(msgs[1].data, b"ccc".to_vec());
}

#[test]
fn lz4_and_zstd_chunks_decompress() {
    let mut records = message_record(3, 10, b"xyz");
    records.extend_from_slice(&message_record(4, 11, b"w"));
    let mut lz4 = lz4_flex::frame::FrameEncoder::new(Vec::new());
    std::io::Write::write_all(&mut lz4, &records).unwrap();
    let lz4_bytes = lz4.finish().unwrap();
    let msgs = extract_messages_from_chunk(&chunk_record("lz4", &lz4_bytes), &[3]).unwrap();
    assert_eq!(msgs.len(), 1);
    assert_eq!(msgs[0].data, b"xyz".to_vec());
    let zstd_bytes = zstd::encode_all(&records[..], 0).unwrap();
    let msgs = extract_messages_from_chunk(&chunk_record("zstd", &zstd_bytes), &[4]).unwrap();
    assert_eq!(msgs.len(), 1);
    assert_eq!(msgs[0].log_time, 11);
    let plain = extract_messages_from_chunk(&chunk_record("", &records), &[3, 4]).unwrap();
    assert_eq!(plain.len(), 2);
    assert!(matches!(
        extract_messages_from_chunk(&chunk_record("brotli", &records), &[3]),
        Err(ChunkError::UnsupportedCompression(name)) if name == "brotli"
    ));
    assert!(matches!(
        extract_messages_from_chunk(&chunk_record("lz4", &records), &[3]),
        Err(ChunkError::Decompression)
    ));
}

#[test]
fn cdr_messages_decode() {
    let img = parse_image(&image_cdr(3, 4, 2, 1, "bgr8", &[1, 2, 3, 4, 5, 6])).unwrap();
    assert_eq!((img.width, img.height, img.step), (2, 1, 6));
    assert_eq!(img.encoding, "bgr8");
    assert_eq!(img.header.frame_id, "cam");
    assert!(matches!(parse_image(&[0, 1]), Err(CdrError::TooShort)));
    assert!(matches!(parse_image(&[0, 1, 0, 0, 1]), Err(CdrError::UnexpectedEof)));
    let info = parse_camera_info(&camera_info_cdr(8, 6)).unwrap();
    assert_eq!((info.width, info.height), (8, 6));
    let tf = parse_tf_message(&tf_cdr(&[("a", "b")])).unwrap();
    assert_eq!(tf.transforms.len(), 1);
    assert_eq!(tf.transforms[0].transform.rotation.w, 1.0f64.to_bits());
}

#[test]
fn batches_and_extraction_hold_the_same_frames() {
    let reader = McapReader::from_bytes(sample_recording());
    let items = reader.messages().unwrap();
    let mut batcher = FrameBatcher::new("/front/compressed", 2);
    let mut handed: Vec<u64> = Vec::new();
    for item in &items {
        if let Some(batch) = batcher.push(item).unwrap() {
            handed.extend(batch.iter().map(|f| f.sequence));
        }
    }
    if let Some(batch) = batcher.finish() {
        handed.extend(batch.iter().map(|f| f.sequence));
    }
    let mut extracted: Vec<u64> = reader.extract_frames("/front/compressed").unwrap().iter().map(|f| f.sequence).collect();
    assert_eq!(handed, vec![0, 1, 2]);
    extracted.sort();
    assert_eq!(handed, extracted);
}

#[test]
fn batches_sorted_by_time_are_the_extracted_frames() {
    let reader = McapReader::from_bytes(sample_recording());
    let items = reader.messages().unwrap();
    let mut batcher = FrameBatcher::new("/front/compressed", 2);
    let mut all = Vec::new();
    for item in &items {
        if let Some(batch) = batcher.push(item).unwrap() {
            all.extend(batch);
        }
    }
    if let Some(batch) = batcher.finish() {
        all.extend(batch);
    }
    all.sort_by_key(|f| (f.stamp.sec, f.stamp.nanosec));
    let extracted = reader.extract_frames("/front/compressed").unwrap();
    let key = |fs: &Vec<mcap2vid::mcap_reader::VideoFrame>| -> Vec<(i32, u32, u64)> {
        fs.iter().map(|f| (f.stamp.sec, f.stamp.nanosec, f.sequence)).collect()
    };
    assert_eq!(key(&all), key(&extracted));
}

#[test]
fn first_frame_is_extracted_frame_zero() {
    let reader = McapReader::from_bytes(sample_recording());
    let first = reader.extract_first_frame("/front/compressed").unwrap();
    let extracted = reader.extract_frames("/front/compressed").unwrap();
    let zero = extracted.iter().find(|f| f.sequence == 0).unwrap();
    assert_eq!((first.stamp.sec, first.stamp.nanosec), (zero.stamp.sec, zero.stamp.nanosec));
    match (&first.data, &zero.data) {
        (FrameData::Compressed { format: a, data: x }, FrameData::Compressed { format: b, data: y }) => {
            assert_eq!(a, b);
            assert_eq!(x, y);
        }
        _ => panic!("expected compressed frames"),
    }
    // It is not the earliest frame: frames are extracted in time order.
    assert_eq!(extracted[0].sequence, 1);
}
