//! The Kafka source and sink.

pub mod batch;
pub mod batch_reader;
pub mod bounded;
pub mod columns;
pub mod exec;
pub mod format;
pub mod offsets;
pub mod options;
pub mod plain;
pub mod realtime;
pub mod sink;
pub mod source;
