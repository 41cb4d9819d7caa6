//! Commits to Iceberg tables: producing snapshots and writing table metadata.

pub mod commit;
pub mod metadata;
pub mod snapshot;
