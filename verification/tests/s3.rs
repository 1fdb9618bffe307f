use std::collections::HashMap;

use hmac::{Hmac, Mac};
use sha2::{Digest, Sha256};

use mcap2vid::mcap_index::{ChannelInfo, ChunkIndexInfo, McapSummary, SchemaInfo};
use mcap2vid::mcap_reader::FrameData;
use mcap2vid::ros2_msgs::{ImageMessageType, MetadataMessageType};
use mcap2vid::s3_reader::{
    build_schema_map, chunk_ranges_fit, days_to_ymd, encode_uri_path, extract_host, footer_range,
    is_s3_url, range_header, utc_now, utc_timestamp, S3Client, S3Error, S3Url, S3UrlError,
};

#[test]
fn parses_s3_urls() {
    let u = S3Url::parse("s3c://bucket/path/to/object.mcap").unwrap();
    assert_eq!(u.bucket, "bucket");
    assert_eq!(u.key, "path/to/object.mcap");
    assert!(matches!(S3Url::parse("s3://bucket/key"), Err(S3UrlError::MissingScheme)));
    assert!(matches!(S3Url::parse("s3c://bucket"), Err(S3UrlError::MissingKey)));
    assert!(matches!(S3Url::parse("s3c:///key"), Err(S3UrlError::EmptyPart)));
    assert!(matches!(S3Url::parse("s3c://bucket/"), Err(S3UrlError::EmptyPart)));
}

#[test]
fn recognises_s3_urls() {
    assert!(is_s3_url("s3c://b/k"));
    assert!(!is_s3_url("recording.mcap"));
    assert!(!is_s3_url("s3c:/b"));
}

#[test]
fn client_trims_endpoint_slashes() {
    let c = S3Client::new("https://s3.example.com//", "AK", "SK");
    let url = S3Url::parse("s3c://bkt/a b/c.mcap").unwrap();
    assert_eq!(c.object_url(&url), "https://s3.example.com/bkt/a%20b/c.mcap");
}

#[test]
fn extracts_hosts() {
    assert_eq!(extract_host("https://s3.example.com/x/y"), "s3.example.com");
    assert_eq!(extract_host("http://localhost:9000"), "localhost:9000");
    assert_eq!(extract_host("minio:9000/base"), "minio:9000");
}

#[test]
fn encodes_uri_paths() {
    assert_eq!(encode_uri_path("dir/file-1_2.~x"), "dir/file-1_2.~x");
    assert_eq!(encode_uri_path("a b+c"), "a%20b%2Bc");
    assert_eq!(encode_uri_path("é"), "%C3%A9");
}

#[test]
fn converts_days_to_dates() {
    assert_eq!(days_to_ymd(0), (1970, 1, 1));
    assert_eq!(days_to_ymd(59), (1970, 3, 1));
    assert_eq!(days_to_ymd(11016), (2000, 2, 29));
    assert_eq!(days_to_ymd(19723), (2024, 1, 1));
    assert_eq!(days_to_ymd(20089), (2025, 1, 1));
    assert_eq!(days_to_ymd(19782), (2024, 2, 29));
    // 2100 is not a leap year.
    assert_eq!(days_to_ymd(47540), (2100, 2, 28));
    assert_eq!(days_to_ymd(47541), (2100, 3, 1));
}

#[test]
fn formats_signing_dates() {
    let t = utc_timestamp(1_700_000_000);
    assert_eq!(t.amz_date, "20231114T221320Z");
    assert_eq!(t.date_stamp, "20231114");
    let now = utc_now().unwrap();
    assert_eq!(now.amz_date.len(), 16);
    assert!(now.amz_date.starts_with(&now.date_stamp));
}

fn hmac(key: &[u8], data: &[u8]) -> Vec<u8> {
    let mut mac = Hmac::<Sha256>::new_from_slice(key).unwrap();
    mac.update(data);
    mac.finalize().into_bytes().to_vec()
}

#[test]
fn derives_the_signing_key() {
    let c = S3Client::new("https://s3.example.com", "AKID", "secret");
    let k = c.derive_signing_key("20240101");
    let expected = hmac(
        &hmac(&hmac(&hmac(b"AWS4secret", b"20240101"), b"us-east-1"), b"s3"),
        b"aws4_request",
    );
    assert_eq!(k, expected);
    assert_ne!(k, b"20240101".to_vec());
}

#[test]
fn signs_requests() {
    let c = S3Client::new("https://s3.example.com/", "AKID", "secret");
    let now = utc_timestamp(1_700_000_000);
    let headers = c.sign_request("GET", "bkt", "dir/a b.mcap", &now);
    assert_eq!(headers.len(), 3);
    assert_eq!(headers[1], ("x-amz-date".to_string(), "20231114T221320Z".to_string()));
    assert_eq!(headers[2], ("x-amz-content-sha256".to_string(), "UNSIGNED-PAYLOAD".to_string()));
    let canonical = "GET\n/bkt/dir/a%20b.mcap\n\nhost:s3.example.com\nx-amz-content-sha256:UNSIGNED-PAYLOAD\nx-amz-date:20231114T221320Z\n\nhost;x-amz-content-sha256;x-amz-date\nUNSIGNED-PAYLOAD";
    let scope = "20231114/us-east-1/s3/aws4_request";
    let to_sign = format!(
        "AWS4-HMAC-SHA256\n20231114T221320Z\n{}\n{}",
        scope,
        hex::encode(Sha256::digest(canonical.as_bytes()))
    );
    let signature = hex::encode(hmac(&c.derive_signing_key("20231114"), to_sign.as_bytes()));
    let expected = format!(
        "AWS4-HMAC-SHA256 Credential=AKID/{}, SignedHeaders=host;x-amz-content-sha256;x-amz-date, Signature={}",
        scope, signature
    );
    assert_eq!(headers[0].0, "Authorization");
    assert_eq!(headers[0].1, expected);
    assert_eq!(signature.len(), 64);
    let sent = headers[0].1.rsplit("Signature=").next().unwrap();
    assert_eq!(sent.len(), 64);
    assert!(sent.chars().all(|c| c.is_ascii_digit() || ('a'..='f').contains(&c)));
}

#[test]
fn formats_ranges() {
    assert_eq!(range_header(0, 36), "bytes=0-36");
    assert_eq!(range_header(1234, 99999), "bytes=1234-99999");
    assert_eq!(footer_range(100), Some((63, 99)));
    assert_eq!(footer_range(36), None);
}

fn summary() -> McapSummary {
    let mut counts = HashMap::new();
    counts.insert(1u16, 5u64);
    counts.insert(2u16, 7u64);
    counts.insert(3u16, 2u64);
    McapSummary {
        channels: vec![
            ChannelInfo { id: 2, schema_id: 1, topic: "/z/image".to_string() },
            ChannelInfo { id: 1, schema_id: 2, topic: "/a/compressed".to_string() },
            ChannelInfo { id: 3, schema_id: 3, topic: "/tf".to_string() },
            ChannelInfo { id: 4, schema_id: 9, topic: "/unknown".to_string() },
        ],
        schemas: vec![
            SchemaInfo { id: 1, name: "sensor_msgs/msg/Image".to_string() },
            SchemaInfo { id: 2, name: "old".to_string() },
            SchemaInfo { id: 2, name: "sensor_msgs/msg/CompressedImage".to_string() },
            SchemaInfo { id: 3, name: "tf2_msgs/msg/TFMessage".to_string() },
        ],
        chunk_indexes: vec![
            ChunkIndexInfo { chunk_start_offset: 8, chunk_length: 100, channel_ids: vec![3] },
            ChunkIndexInfo { chunk_start_offset: 108, chunk_length: 50, channel_ids: vec![3, 1] },
            ChunkIndexInfo { chunk_start_offset: 158, chunk_length: 60, channel_ids: vec![2] },
        ],
        channel_message_counts: counts,
    }
}

#[test]
fn schema_map_keeps_the_last_name() {
    let s = summary();
    let m = build_schema_map(&s);
    assert_eq!(m.get(&2), Some(&"sensor_msgs/msg/CompressedImage"));
    assert_eq!(m.len(), 3);
}

#[test]
fn lists_topics_from_a_summary() {
    let s = summary();
    let c = S3Client::new("http://x", "a", "b");
    let topics = c.list_video_topics(&s);
    assert_eq!(topics.len(), 2);
    assert_eq!(topics[0].name, "/a/compressed");
    assert_eq!(topics[0].message_count, 5);
    assert_eq!(topics[0].message_type, Some(ImageMessageType::CompressedImage));
    assert_eq!(topics[1].name, "/z/image");
    assert_eq!(topics[1].message_count, 7);
    let meta = c.list_metadata_topics(&s);
    assert_eq!(meta.len(), 1);
    assert_eq!(meta[0].name, "/tf");
    assert_eq!(meta[0].message_type, MetadataMessageType::TFMessage);
}

#[test]
fn plans_only_the_relevant_chunks() {
    let s = summary();
    let c = S3Client::new("http://x", "a", "b");
    assert!(chunk_ranges_fit(&s, "/a/compressed"));
    let plan = c.plan_frames(&s, "/a/compressed").unwrap();
    assert_eq!(plan.channel_ids, vec![1]);
    assert_eq!(plan.kind, ImageMessageType::CompressedImage);
    assert_eq!(plan.ranges, vec![(108, 157)]);
    match c.plan_frames(&s, "/missing") {
        Err(S3Error::TopicNotFound { topic, available }) => {
            assert_eq!(topic, "/missing");
            assert_eq!(available, vec!["/z/image", "/a/compressed", "/tf", "/unknown"]);
        }
        _ => panic!("expected TopicNotFound"),
    }
    assert!(matches!(c.plan_frames(&s, "/tf"), Err(S3Error::NotImageTopic { .. })));
}

fn cdr_compressed(sec: i32, data: &[u8]) -> Vec<u8> {
    let mut b = vec![0u8, 1, 0, 0];
    b.extend_from_slice(&(sec as u32).to_le_bytes());
    b.extend_from_slice(&0u32.to_le_bytes());
    b.extend_from_slice(&2u32.to_le_bytes());
    b.extend_from_slice(b"c\0");
    b.extend_from_slice(&[0, 0]);
    b.extend_from_slice(&5u32.to_le_bytes());
    b.extend_from_slice(b"jpeg\0");
    b.extend_from_slice(&[0, 0, 0]);
    b.extend_from_slice(&(data.len() as u32).to_le_bytes());
    b.extend_from_slice(data);
    b
}

fn plain_chunk(msgs: &[(u16, u64, Vec<u8>)]) -> Vec<u8> {
    let mut records = Vec::new();
    for (ch, t, payload) in msgs {
        records.push(0x05);
        records.extend_from_slice(&((22 + payload.len()) as u64).to_le_bytes());
        records.extend_from_slice(&ch.to_le_bytes());
        records.extend_from_slice(&0u32.to_le_bytes());
        records.extend_from_slice(&t.to_le_bytes());
        records.extend_from_slice(&t.to_le_bytes());
        records.extend_from_slice(payload);
    }
    let mut body = vec![0u8; 28];
    body.extend_from_slice(&0u32.to_le_bytes());
    body.extend_from_slice(&(records.len() as u64).to_le_bytes());
    body.extend_from_slice(&records);
    let mut r = vec![0x06];
    r.extend_from_slice(&(body.len() as u64).to_le_bytes());
    r.extend_from_slice(&body);
    r
}

#[test]
fn extracts_frames_from_downloaded_chunks() {
    let s = summary();
    let c = S3Client::new("http://x", "a", "b");
    let chunk = plain_chunk(&[
        (1, 1, cdr_compressed(9, &[1])),
        (3, 2, vec![0]),
        (1, 3, cdr_compressed(4, &[2])),
    ]);
    let frames = c.extract_frames(&s, "/a/compressed", &[chunk]).unwrap();
    assert_eq!(frames.len(), 2);
    assert_eq!(frames[0].stamp.sec, 4);
    assert_eq!(frames[0].sequence, 1);
    match &frames[1].data {
        FrameData::Compressed { format, data } => {
            assert_eq!(format, "jpeg");
            assert_eq!(data, &vec![1u8]);
        }
        _ => panic!("expected a compressed frame"),
    }
    let empty = plain_chunk(&[(3, 2, vec![0])]);
    assert!(matches!(
        c.extract_frames(&s, "/a/compressed", &[empty]),
        Err(S3Error::NoFrames { .. })
    ));
    assert!(matches!(
        c.extract_frames(&s, "/a/compressed", &[vec![1, 2, 3]]),
        Err(S3Error::Chunk(_))
    ));
}
