//! The plain Kafka read: records are collected into batches for as long as the stream lasts, and
//! the broker keeps the offsets.

use vstd::prelude::*;
use vstd::utf8::encode_utf8;

verus! {

/// What the driver of a read has to do next.
#[derive(Debug, Clone, Copy, PartialEq, Eq, Structural)]
pub enum PlainAction {
    /// Wait for a record until the deadline of the batch.
    Poll,
    /// Hand out the collected batch and set a new deadline.
    Emit,
    /// Set a new deadline: there is nothing to hand out.
    Restart,
    /// End the read.
    Finish,
}

/// The state of a plain read.
#[verifier::ext_equal]
pub struct PlainModel {
    pub target_rows: usize,
    pub max_bytes: usize,
    pub rows: usize,
    pub bytes: usize,
    /// The deadline of the batch has passed.
    pub late: bool,
    /// The record stream has ended.
    pub closed: bool,
}

impl PlainModel {
    /// Whether the batch takes another record.
    pub open spec fn polling(self) -> bool {
        !self.closed && !self.late && self.rows < self.target_rows && self.bytes < self.max_bytes
    }

    /// What to do next. Records that were collected when the stream ends are not handed out.
    pub open spec fn action(self) -> PlainAction {
        if self.closed {
            PlainAction::Finish
        } else if self.polling() {
            PlainAction::Poll
        } else if self.rows > 0 {
            PlainAction::Emit
        } else {
            PlainAction::Restart
        }
    }

    /// The state after a record of a size.
    pub open spec fn received(self, size: int) -> PlainModel {
        PlainModel {
            rows: (self.rows + 1) as usize,
            bytes: (self.bytes + size) as usize,
            ..self
        }
    }

    /// The state at the start of the next batch.
    pub open spec fn next_round(self) -> PlainModel {
        PlainModel { rows: 0, bytes: 0, late: false, ..self }
    }
}

/// A plain read.
#[derive(Debug)]
pub struct PlainRead {
    target_rows: usize,
    max_bytes: usize,
    rows: usize,
    bytes: usize,
    late: bool,
    closed: bool,
}

impl View for PlainRead {
    type V = PlainModel;

    closed spec fn view(&self) -> PlainModel {
        PlainModel {
            target_rows: self.target_rows,
            max_bytes: self.max_bytes,
            rows: self.rows,
            bytes: self.bytes,
            late: self.late,
            closed: self.closed,
        }
    }
}

impl PlainRead {
    /// A read in batches of at most `target_rows` rows or about `max_bytes` bytes.
    pub fn new(target_rows: usize, max_bytes: usize) -> (read: Self)
        ensures
            read@ == (PlainModel {
                target_rows,
                max_bytes,
                rows: 0,
                bytes: 0,
                late: false,
                closed: false,
            }),
    {
        PlainRead { target_rows, max_bytes, rows: 0, bytes: 0, late: false, closed: false }
    }

    /// Decides what to do next.
    pub fn next_action(&self) -> (action: PlainAction)
        ensures
            action == self@.action(),
    {
        if self.closed {
            PlainAction::Finish
        } else if !self.late && self.rows < self.target_rows && self.bytes < self.max_bytes {
            PlainAction::Poll
        } else if self.rows > 0 {
            PlainAction::Emit
        } else {
            PlainAction::Restart
        }
    }

    /// A record with a key and value of the given sizes has arrived, and belongs to the batch.
    pub fn message(&mut self, topic: &str, key_len: usize, value_len: usize)
        requires
            old(self)@.polling(),
            old(self)@.bytes + value_len + key_len + encode_utf8(topic@).len() <= usize::MAX,
        ensures
            final(self)@ == old(self)@.received(
                value_len + key_len + encode_utf8(topic@).len(),
            ),
    {
        let size: usize = value_len + key_len + topic.len();
        self.bytes = self.bytes + size;
        self.rows = self.rows + 1;
    }

    /// The deadline of the batch has passed.
    pub fn timed_out(&mut self)
        ensures
            final(self)@ == (PlainModel { late: true, ..old(self)@ }),
    {
        self.late = true;
    }

    /// The record stream has ended.
    pub fn stream_ended(&mut self)
        ensures
            final(self)@ == (PlainModel { closed: true, ..old(self)@ }),
    {
        self.closed = true;
    }

    /// The batch was handed out, or there was none, and a new deadline is set.
    pub fn restarted(&mut self)
        ensures
            final(self)@ == old(self)@.next_round(),
    {
        self.rows = 0;
        self.bytes = 0;
        self.late = false;
    }
}

/// A batch is handed out only with rows, and with at most as many as asked for: records come in
/// only while it is not full.
pub proof fn law_batches_are_bounded(m: PlainModel, size: int)
    requires
        m.polling(),
        m.bytes + size <= usize::MAX,
        size >= 0,
    ensures
        m.received(size).rows <= m.target_rows,
        m.received(size).rows > 0,
        m.received(size).action() is Poll || m.received(size).action() is Emit,
        m.action() is Poll,
{
}

/// What a read does next: it ends once the stream has ended; it takes records while the batch is
/// neither late nor full; a batch with records is handed out, and one without starts over.
pub proof fn law_plain_read_decides(m: PlainModel)
    ensures
        m.action() == PlainAction::Finish <==> m.closed,
        m.action() == PlainAction::Poll <==> !m.closed && !m.late && m.rows < m.target_rows
            && m.bytes < m.max_bytes,
        m.action() == PlainAction::Emit <==> !m.closed && m.rows > 0 && (m.late || m.rows
            >= m.target_rows || m.bytes >= m.max_bytes),
        m.action() == PlainAction::Restart <==> !m.closed && m.rows == 0 && (m.late
            || m.target_rows == 0 || m.bytes >= m.max_bytes),
{
}

/// A record adds itself to the batch and changes nothing else; a new round starts with an empty batch
/// and a new deadline.
pub proof fn law_records_add_up(m: PlainModel, first: int, second: int)
    requires
        0 <= first,
        0 <= second,
        m.rows + 2 <= usize::MAX,
        m.bytes + first + second <= usize::MAX,
    ensures
        m.received(first).received(second).rows == m.rows + 2,
        m.received(first).received(second).bytes == m.bytes + first + second,
        m.received(first).received(second) == m.received(second).received(first),
        m.received(first).next_round() == m.next_round(),
        m.next_round().rows == 0,
        m.next_round().bytes == 0,
        !m.next_round().late,
        m.next_round().closed == m.closed,
        m.received(first).late == m.late && m.received(first).closed == m.closed,
        m.received(first).target_rows == m.target_rows && m.next_round().target_rows
            == m.target_rows,
        m.received(first).max_bytes == m.max_bytes && m.next_round().max_bytes == m.max_bytes,
{
}

} // verus!
