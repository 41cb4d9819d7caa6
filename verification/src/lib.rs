//! The logic of a streaming lakehouse engine: checkpoints and epochs, Kafka and file sources and
//! sinks, commit logs, Iceberg commits, distributed planning and placement, and sketch functions.

pub mod artifact;
pub mod assoc;
pub mod bytes;
pub mod checkpoint;
pub mod cli;
pub mod coordinator;
pub mod file_stream;
pub mod flow;
pub mod functions;
pub mod iceberg;
pub mod ids;
pub mod job_graph;
pub mod json;
pub mod json_numbers;
pub mod kafka;
pub mod listing;
pub mod optimizer;
pub mod plan_nodes;
pub mod record_batch;
pub mod schema;
pub mod shuffle;
pub mod sink_log;
pub mod sorting;
pub mod stream_service;
pub mod stream_set;
pub mod task_assigner;
pub mod task_runner;
pub mod text;
pub mod text_cells;
