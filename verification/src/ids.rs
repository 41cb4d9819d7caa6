//! Identifiers of jobs, workers and tasks.

use vstd::prelude::*;

use crate::assoc::MapKey;

verus! {

/// A job.
#[derive(Debug, Clone, Copy, PartialEq, Eq, PartialOrd, Ord, Hash, Structural)]
pub struct JobId(pub u64);

/// A worker.
#[derive(Debug, Clone, Copy, PartialEq, Eq, PartialOrd, Ord, Hash, Structural)]
pub struct WorkerId(pub u64);

/// One attempt at one partition of a stage of a job.
#[derive(Debug, Clone, Copy, PartialEq, Eq, PartialOrd, Ord, Hash, Structural)]
pub struct TaskKey {
    pub job_id: JobId,
    pub stage: usize,
    pub partition: usize,
    pub attempt: usize,
}

impl From<u64> for JobId {
    fn from(value: u64) -> (id: Self) {
        JobId(value)
    }
}

impl vstd::std_specs::convert::FromSpecImpl<u64> for JobId {
    open spec fn obeys_from_spec() -> bool {
        true
    }

    open spec fn from_spec(value: u64) -> Self {
        JobId(value)
    }
}

impl From<u64> for WorkerId {
    fn from(value: u64) -> (id: Self) {
        WorkerId(value)
    }
}

impl vstd::std_specs::convert::FromSpecImpl<u64> for WorkerId {
    open spec fn obeys_from_spec() -> bool {
        true
    }

    open spec fn from_spec(value: u64) -> Self {
        WorkerId(value)
    }
}

impl From<WorkerId> for u64 {
    fn from(id: WorkerId) -> (value: Self) {
        id.0
    }
}

impl vstd::std_specs::convert::FromSpecImpl<WorkerId> for u64 {
    open spec fn obeys_from_spec() -> bool {
        true
    }

    open spec fn from_spec(id: WorkerId) -> Self {
        id.0
    }
}

impl MapKey for TaskKey {
    type Model = TaskKey;

    open spec fn model(&self) -> TaskKey {
        *self
    }

    fn same(&self, other: &Self) -> (same: bool) {
        *self == *other
    }
}

} // verus!
