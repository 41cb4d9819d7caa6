//! Tickets by which a worker asks another for the output of a task.

use vstd::prelude::*;

use crate::ids::JobId;

verus! {

/// A channel of the output of a task.
#[derive(Debug, Clone, Copy, PartialEq, Eq, PartialOrd, Ord, Hash, Structural)]
pub struct TaskStreamKey {
    pub job_id: JobId,
    pub stage: usize,
    pub partition: usize,
    pub attempt: usize,
    pub channel: usize,
}

/// The form in which a channel is asked for.
#[derive(Debug, Clone, Copy, PartialEq, Eq, Structural)]
pub struct TaskStreamTicket {
    pub job_id: u64,
    pub stage: u64,
    pub partition: u64,
    pub attempt: u64,
    pub channel: u64,
}

impl TaskStreamTicket {
    /// The ticket of a channel.
    pub open spec fn of(key: TaskStreamKey) -> TaskStreamTicket {
        TaskStreamTicket {
            job_id: key.job_id.0,
            stage: key.stage as u64,
            partition: key.partition as u64,
            attempt: key.attempt as u64,
            channel: key.channel as u64,
        }
    }

    /// The channel that a ticket asks for.
    pub open spec fn channel_key(self) -> TaskStreamKey {
        TaskStreamKey {
            job_id: JobId(self.job_id),
            stage: self.stage as usize,
            partition: self.partition as usize,
            attempt: self.attempt as usize,
            channel: self.channel as usize,
        }
    }

    /// The ticket of a channel.
    pub fn new(key: &TaskStreamKey) -> (ticket: Self)
        ensures
            ticket == Self::of(*key),
    {
        TaskStreamTicket {
            job_id: key.job_id.0,
            stage: key.stage as u64,
            partition: key.partition as u64,
            attempt: key.attempt as u64,
            channel: key.channel as u64,
        }
    }

    /// The channel that a ticket asks for.
    pub fn key(&self) -> (key: TaskStreamKey)
        ensures
            key == self.channel_key(),
    {
        TaskStreamKey {
            job_id: JobId(self.job_id),
            stage: self.stage as usize,
            partition: self.partition as usize,
            attempt: self.attempt as usize,
            channel: self.channel as usize,
        }
    }
}

/// The number of rows that small batches are put together to before they are sent, where they
/// are: a number of one or less keeps them as they are.
pub fn coalesce_target(rows: usize) -> (target: Option<usize>)
    ensures
        target == if rows > 1 {
            Some(rows)
        } else {
            None
        },
{
    if rows > 1 {
        Some(rows)
    } else {
        None
    }
}

/// A ticket asks for the channel that it was made for.
pub proof fn law_ticket_denotes_its_channel(key: TaskStreamKey)
    ensures
        TaskStreamTicket::of(key).channel_key() == key,
{
}

} // verus!
