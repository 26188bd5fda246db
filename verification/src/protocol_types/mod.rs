//! The message types of the protocol and their encodings.

pub mod api_versions;
pub mod describe_topic_partitions;
pub mod kafka_encode;
pub mod metadata;
