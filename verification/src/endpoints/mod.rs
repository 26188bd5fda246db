//! The request handlers of the broker.

pub mod api_key;
pub mod api_versions;
pub mod describe_topic_partitions;
pub mod error;
pub mod produce;
pub mod request;
