//! A small Kafka broker core: wire-format readers, request parsers, response
//! encoders and the cluster-metadata log reader, each with a contract.

pub mod buffer;
pub mod cluster;
pub mod endpoints;
pub mod name_map;
pub mod protocol_types;
pub mod server;
pub mod text;
pub mod wire;
