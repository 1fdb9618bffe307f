//! Verified core of an MCAP-to-video extractor: message-schema classification,
//! ROS2 CDR and Foxglove protobuf decoding, reading frames and metadata from
//! MCAP recordings, MCAP index parsing and chunk selection, AWS Signature V4
//! request signing, raw-image conversion, frame checks before encoding and the
//! FTSS timestamp atom.

pub mod text;
pub mod sorting;
pub mod schema;
pub mod byte_order;
pub mod ros2_msgs;
pub mod foxglove_proto;
pub mod mcap_index;
pub mod timestamp;
pub mod mcap_reader;
pub mod decoder;
pub mod s3_reader;
pub mod encoder;
pub mod cli;
pub mod export;
