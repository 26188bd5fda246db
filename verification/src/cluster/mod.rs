//! The cluster as the metadata log describes it: topics, their partitions,
//! and the reader of the log.

pub mod metadata;
pub mod partition;
pub mod topic;
