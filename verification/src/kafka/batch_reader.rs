//! The reader of a single partition, which drains the client's queue in batches.

use vstd::prelude::*;
use vstd::utf8::encode_utf8;

verus! {

/// What the driver of a partition reader has to do next.
#[derive(Debug, Clone, Copy, PartialEq, Eq, Structural)]
pub enum ReaderAction {
    /// Drain the queue.
    Poll,
    /// Hand over the collected batch.
    Emit,
    /// End the reader.
    Stop,
}

/// The state of a partition reader.
#[derive(Debug, Clone, Copy, PartialEq, Eq, Structural)]
pub struct ReaderState {
    /// The offset of the next record.
    pub next: i64,
    /// The offset at which the read ends.
    pub end: i64,
    /// The last known head of the partition.
    pub head: i64,
    pub target_rows: usize,
    pub max_bytes: usize,
    pub max_empty_polls: u32,
    /// The reader never ends on empty polls, and reports when it has caught up.
    pub continuous: bool,
    pub rows: usize,
    pub bytes: usize,
    pub empty_polls: u32,
    pub idle: bool,
    /// The batch takes no more records.
    pub round_over: bool,
    pub stopped: bool,
}

impl ReaderState {
    /// What every reachable state satisfies.
    pub open spec fn valid(self) -> bool {
        &&& self.target_rows > 0
        &&& self.max_bytes > 0
        &&& self.round_over ==> self.rows > 0
        &&& self.rows == 0 ==> self.bytes == 0
        &&& !self.stopped ==> self.empty_polls == 0 || self.empty_polls < self.max_empty_polls
    }

    /// Whether the batch takes more records.
    pub open spec fn polling(self) -> bool {
        !self.stopped && !self.round_over && self.rows < self.target_rows && self.bytes
            < self.max_bytes && self.next < self.end
    }

    /// What to do next.
    pub open spec fn action(self) -> ReaderAction {
        if self.stopped {
            ReaderAction::Stop
        } else if self.polling() {
            ReaderAction::Poll
        } else if self.rows > 0 {
            ReaderAction::Emit
        } else {
            ReaderAction::Stop
        }
    }

    /// Whether the reader, having drained nothing, wants to know the head of the partition again.
    pub open spec fn wants_head_again(self) -> bool {
        self.rows == 0 && self.continuous && self.next >= self.head
    }

    /// The last known head after it was asked for again, where that is wanted and succeeds.
    pub open spec fn head_after(self, refreshed: Option<i64>) -> i64 {
        if self.wants_head_again() && refreshed is Some {
            refreshed->0
        } else {
            self.head
        }
    }

    /// Whether a drain that gave nothing is reported as idle: the reader is at the head, and has
    /// not reported it yet.
    pub open spec fn reports_idle(self, refreshed: Option<i64>) -> bool {
        self.rows == 0 && self.continuous && self.next >= self.head_after(refreshed) && !self.idle
    }

    /// The state after a drain that gave nothing.
    pub open spec fn after_empty_poll(self, refreshed: Option<i64>) -> ReaderState {
        if self.rows > 0 {
            ReaderState { round_over: true, ..self }
        } else if self.continuous {
            ReaderState {
                head: self.head_after(refreshed),
                idle: self.idle || self.reports_idle(refreshed),
                ..self
            }
        } else {
            ReaderState {
                empty_polls: (self.empty_polls + 1) as u32,
                stopped: self.empty_polls + 1 >= self.max_empty_polls,
                ..self
            }
        }
    }

    /// The state after a record without error; one at or behind the end is left out.
    pub open spec fn after_record(self, offset: i64, size: int) -> ReaderState {
        if offset < self.end {
            ReaderState {
                next: (offset + 1) as i64,
                rows: (self.rows + 1) as usize,
                bytes: (self.bytes + size) as usize,
                ..self
            }
        } else {
            self
        }
    }
}

/// A reader of a single partition.
#[derive(Debug)]
pub struct PartitionReader {
    state: ReaderState,
}

impl View for PartitionReader {
    type V = ReaderState;

    closed spec fn view(&self) -> ReaderState {
        self.state
    }
}

impl PartitionReader {
    /// A reader from `start` up to `end`. `head` is the head of the partition where it is known.
    pub fn new(
        start: i64,
        end: i64,
        head: Option<i64>,
        target_rows: usize,
        max_bytes: usize,
        max_empty_polls: u32,
        continuous: bool,
    ) -> (reader: Self)
        requires
            target_rows > 0,
            max_bytes > 0,
        ensures
            reader@.valid(),
            reader@ == (ReaderState {
                next: start,
                end,
                head: if head is Some {
                    head->0
                } else {
                    i64::MAX
                },
                target_rows,
                max_bytes,
                max_empty_polls,
                continuous,
                rows: 0,
                bytes: 0,
                empty_polls: 0,
                idle: false,
                round_over: false,
                stopped: false,
            }),
    {
        PartitionReader {
            state: ReaderState {
                next: start,
                end,
                head: match head {
                    Some(h) => h,
                    None => i64::MAX,
                },
                target_rows,
                max_bytes,
                max_empty_polls,
                continuous,
                rows: 0,
                bytes: 0,
                empty_polls: 0,
                idle: false,
                round_over: false,
                stopped: false,
            },
        }
    }

    /// Decides what to do next.
    pub fn next_action(&self) -> (action: ReaderAction)
        ensures
            action == self@.action(),
    {
        if self.state.stopped {
            ReaderAction::Stop
        } else if !self.state.round_over && self.state.rows < self.state.target_rows
            && self.state.bytes < self.state.max_bytes && self.state.next < self.state.end {
            ReaderAction::Poll
        } else if self.state.rows > 0 {
            ReaderAction::Emit
        } else {
            ReaderAction::Stop
        }
    }

    /// The offset behind the last collected record.
    pub fn next_offset(&self) -> (next: i64)
        ensures
            next == self@.next,
    {
        self.state.next
    }

    /// Whether the reader, having drained nothing, wants to know the head of the partition again.
    pub fn wants_head(&self) -> (wants: bool)
        ensures
            wants == self@.wants_head_again(),
    {
        self.state.rows == 0 && self.state.continuous && self.state.next >= self.state.head
    }

    /// A drain gave nothing. `refreshed` is the head of the partition where it was asked for again
    /// and is known. Says whether to report that the reader has caught up.
    pub fn empty_poll(&mut self, refreshed: Option<i64>) -> (report_idle: bool)
        requires
            old(self)@.valid(),
            old(self)@.polling(),
        ensures
            final(self)@.valid(),
            final(self)@ == old(self)@.after_empty_poll(refreshed),
            report_idle == old(self)@.reports_idle(refreshed),
    {
        if self.state.rows > 0 {
            self.state.round_over = true;
            return false;
        }
        if self.state.continuous {
            if self.state.next >= self.state.head {
                if let Some(h) = refreshed {
                    self.state.head = h;
                }
            }
            if self.state.next >= self.state.head && !self.state.idle {
                self.state.idle = true;
                return true;
            }
            return false;
        }
        if self.state.max_empty_polls == 0 || self.state.empty_polls >= self.state.max_empty_polls
            - 1 {
            self.state.stopped = true;
        }
        self.state.empty_polls = self.state.empty_polls + 1;
        false
    }

    /// A drain gave records.
    pub fn data_arrived(&mut self)
        requires
            old(self)@.valid(),
        ensures
            final(self)@.valid(),
            final(self)@ == (ReaderState { empty_polls: 0, idle: false, ..old(self)@ }),
    {
        self.state.empty_polls = 0;
        self.state.idle = false;
    }

    /// Takes note of a record of the drain, which came without error. Says whether it belongs to
    /// the batch.
    pub fn message(&mut self, topic: &str, offset: i64, key_len: usize, value_len: usize) -> (accepted:
        bool)
        requires
            old(self)@.valid(),
            !old(self)@.round_over,
            old(self)@.rows < usize::MAX,
            old(self)@.bytes + value_len + key_len + encode_utf8(topic@).len() <= usize::MAX,
        ensures
            final(self)@.valid(),
            accepted == (offset < old(self)@.end),
            final(self)@ == old(self)@.after_record(
                offset,
                value_len + key_len + encode_utf8(topic@).len(),
            ),
    {
        if offset >= self.state.end {
            return false;
        }
        let size: usize = value_len + key_len + topic.len();
        self.state.bytes = self.state.bytes + size;
        self.state.rows = self.state.rows + 1;
        self.state.next = offset + 1;
        true
    }

    /// The collected batch was handed over, or nobody takes it any more.
    pub fn emitted(&mut self, delivered: bool)
        requires
            old(self)@.valid(),
        ensures
            final(self)@.valid(),
            final(self)@ == (ReaderState {
                rows: 0,
                bytes: 0,
                round_over: false,
                stopped: old(self)@.stopped || !delivered,
                ..old(self)@
            }),
    {
        self.state.rows = 0;
        self.state.bytes = 0;
        self.state.round_over = false;
        if !delivered {
            self.state.stopped = true;
        }
    }

    /// Nobody takes the reader's output any more.
    pub fn abandoned(&mut self)
        requires
            old(self)@.valid(),
        ensures
            final(self)@.valid(),
            final(self)@ == (ReaderState { stopped: true, ..old(self)@ }),
    {
        self.state.stopped = true;
    }
}

/// The timestamp column and the timestamp-type column for what the client reports: its timestamp
/// kinds count from zero for none.
pub fn reader_timestamp(kind: i32, timestamp: i64) -> (columns: (i64, i32))
    requires
        kind > i32::MIN,
    ensures
        columns.1 == kind - 1,
        columns.0 == if kind < 1 {
            -1i64
        } else {
            timestamp
        },
{
    let ts_type: i32 = kind - 1;
    if ts_type < 0 {
        (-1, ts_type)
    } else {
        (timestamp, ts_type)
    }
}

/// A reader is reported idle only where it has nothing collected and is at the head of its
/// partition: a drain that gives nothing in the middle of the partition is not idleness.
pub proof fn law_idle_means_caught_up(s: ReaderState, refreshed: Option<i64>)
    requires
        s.valid(),
        s.polling(),
        s.reports_idle(refreshed),
    ensures
        s.rows == 0,
        s.next >= s.after_empty_poll(refreshed).head,
        s.after_empty_poll(refreshed).idle,
        !s.after_empty_poll(refreshed).reports_idle(refreshed),
{
}

/// A reader that nobody abandoned stops only at its end, or after as many empty drains in a row as
/// allowed.
pub proof fn law_reader_stops_at_end_or_stalled(s: ReaderState)
    requires
        s.valid(),
        !s.stopped,
    ensures
        s.action() == ReaderAction::Stop ==> s.next >= s.end,
        forall|refreshed: Option<i64>| #[trigger]
            s.after_empty_poll(refreshed).stopped ==> !s.continuous && s.empty_polls + 1
                >= s.max_empty_polls,
{
}

/// What a reader does next: it takes records while its batch is not full and the end is not reached,
/// hands out what it has, and stops with nothing in hand.
pub proof fn law_reader_decides(s: ReaderState)
    ensures
        ({
            let full = s.rows >= s.target_rows || s.bytes >= s.max_bytes;
            let open = !s.round_over && !full && s.next < s.end;
            &&& s.stopped ==> s.action() == ReaderAction::Stop
            &&& !s.stopped && open ==> s.action() == ReaderAction::Poll
            &&& !s.stopped && !open && s.rows > 0 ==> s.action() == ReaderAction::Emit
            &&& !s.stopped && !open && s.rows == 0 ==> s.action() == ReaderAction::Stop
        }),
{
}

/// A poll without a record ends the round of a batch that has some. A continuous reader without
/// records never gives up: it takes the head that was asked for once it has caught up, and is idle
/// from the poll on at which it is at the head. A bounded one counts the poll, and stops at the last
/// that is allowed.
pub proof fn law_empty_polls_end_rounds_or_reads(s: ReaderState, refreshed: Option<i64>)
    requires
        s.empty_polls < u32::MAX,
    ensures
        ({
            let after = s.after_empty_poll(refreshed);
            let caught_up = s.next >= s.head;
            let head = if caught_up && refreshed is Some {
                refreshed->0
            } else {
                s.head
            };
            &&& after.next == s.next && after.rows == s.rows && after.bytes == s.bytes && after.end
                == s.end
            &&& s.rows > 0 ==> after.round_over && after.empty_polls == s.empty_polls
                && after.stopped == s.stopped && after.head == s.head && after.idle == s.idle
                && !s.reports_idle(refreshed)
            &&& s.rows == 0 && s.continuous ==> {
                &&& after.stopped == s.stopped && after.empty_polls == s.empty_polls
                    && after.round_over == s.round_over
                &&& after.head == head
                &&& s.wants_head_again() == caught_up
                &&& s.reports_idle(refreshed) == (!s.idle && s.next >= head)
                &&& after.idle == (s.idle || s.next >= head)
            }
            &&& s.rows == 0 && !s.continuous ==> {
                &&& after.empty_polls == s.empty_polls + 1
                &&& after.stopped == (s.empty_polls + 1 >= s.max_empty_polls)
                &&& after.idle == s.idle && after.head == s.head
                &&& !s.reports_idle(refreshed) && !s.wants_head_again()
            }
        }),
{
}

/// A record before the end advances the reader behind it and counts with its size; one at the end or
/// behind it changes nothing.
pub proof fn law_reader_counts_records(s: ReaderState, offset: i64, size: int)
    requires
        0 <= size,
        s.rows < usize::MAX,
        s.bytes + size <= usize::MAX,
    ensures
        offset >= s.end ==> s.after_record(offset, size) == s,
        offset < s.end ==> {
            let after = s.after_record(offset, size);
            &&& after.next == offset + 1
            &&& after.next <= s.end
            &&& after.rows == s.rows + 1
            &&& after.bytes == s.bytes + size
            &&& after.end == s.end && after.head == s.head && after.idle == s.idle
                && after.stopped == s.stopped && after.round_over == s.round_over
                && after.empty_polls == s.empty_polls
        },
{
}

} // verus!
