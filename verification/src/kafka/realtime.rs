//! The realtime Kafka read: records as they arrive, with a checkpoint barrier per epoch.

use vstd::prelude::*;
use vstd::utf8::encode_utf8;

use crate::assoc::AssocMap;
use crate::kafka::offsets::{
    encode_offsets, named_offsets, offsets_json, staged_epoch_key, staged_epoch_key_of, stored_offsets, TopicPartition,
};
use crate::text;
use crate::text::decimal;

verus! {

/// What the driver of a realtime read does in response to an event, in order.
#[derive(Debug, Clone, Copy, PartialEq, Eq, Structural)]
pub enum RealtimeOutput {
    /// Hand out the collected batch.
    Batch,
    /// Stage the offsets reached, for the epoch.
    Stage { epoch: u64 },
    /// Emit the checkpoint barrier of the epoch.
    Checkpoint { epoch: u64 },
    /// Tell the operators downstream that the source is idle.
    Idle,
}

/// The state of a realtime read.
#[verifier::ext_equal]
pub struct RealtimeModel {
    pub epoch: u64,
    /// The next offset of each partition.
    pub next: Map<(Seq<char>, i32), i64>,
    pub target_rows: usize,
    pub max_bytes: usize,
    pub rows: usize,
    pub bytes: usize,
    /// The operators downstream know that the source is idle.
    pub idle: bool,
}

/// A batch, where there are rows for one.
pub open spec fn batch_if(rows: usize) -> Seq<RealtimeOutput> {
    if rows > 0 {
        seq![RealtimeOutput::Batch]
    } else {
        Seq::empty()
    }
}

impl RealtimeModel {
    /// The state with no rows collected.
    pub open spec fn flushed(self) -> RealtimeModel {
        if self.rows > 0 {
            RealtimeModel { rows: 0, bytes: 0, ..self }
        } else {
            self
        }
    }

    /// The state after the end of an epoch.
    pub open spec fn after_epoch(self) -> RealtimeModel {
        RealtimeModel { epoch: (self.epoch + 1) as u64, ..self.flushed() }
    }

    /// What the end of an epoch calls for: the rows first, then the offsets, then the barrier.
    pub open spec fn epoch_outputs(self) -> Seq<RealtimeOutput> {
        batch_if(self.rows) + seq![
            RealtimeOutput::Stage { epoch: self.epoch },
            RealtimeOutput::Checkpoint { epoch: self.epoch },
        ]
    }

    /// The state with one more record collected.
    pub open spec fn collected(
        self,
        topic: Seq<char>,
        partition: i32,
        offset: i64,
        size: int,
    ) -> RealtimeModel {
        RealtimeModel {
            next: self.next.insert((topic, partition), (offset + 1) as i64),
            rows: (self.rows + 1) as usize,
            bytes: (self.bytes + size) as usize,
            idle: false,
            ..self
        }
    }

    /// Whether the batch is full.
    pub open spec fn full(self) -> bool {
        self.rows >= self.target_rows || self.bytes >= self.max_bytes
    }

    /// The state after a record.
    pub open spec fn after_record(
        self,
        topic: Seq<char>,
        partition: i32,
        offset: i64,
        size: int,
    ) -> RealtimeModel {
        let m = self.collected(topic, partition, offset, size);
        if m.full() {
            m.flushed()
        } else {
            m
        }
    }

    /// What a record calls for: the batch, where it is full.
    pub open spec fn record_outputs(
        self,
        topic: Seq<char>,
        partition: i32,
        offset: i64,
        size: int,
    ) -> Seq<RealtimeOutput> {
        if self.collected(topic, partition, offset, size).full() {
            seq![RealtimeOutput::Batch]
        } else {
            Seq::empty()
        }
    }

    /// The state after the head of a partition was reached.
    pub open spec fn after_head(self) -> RealtimeModel {
        RealtimeModel { idle: true, ..self.flushed() }
    }

    /// What reaching the head of a partition calls for: the rows, then, once, word that the source
    /// is idle.
    pub open spec fn head_outputs(self) -> Seq<RealtimeOutput> {
        batch_if(self.rows) + if self.idle {
            Seq::<RealtimeOutput>::empty()
        } else {
            seq![RealtimeOutput::Idle]
        }
    }
}

/// A realtime read.
#[derive(Debug)]
pub struct RealtimeRead {
    inst: usize,
    epoch: u64,
    next: AssocMap<TopicPartition, i64>,
    target_rows: usize,
    max_bytes: usize,
    rows: usize,
    bytes: usize,
    idle: bool,
}

impl View for RealtimeRead {
    type V = RealtimeModel;

    closed spec fn view(&self) -> RealtimeModel {
        RealtimeModel {
            epoch: self.epoch,
            next: self.next@,
            target_rows: self.target_rows,
            max_bytes: self.max_bytes,
            rows: self.rows,
            bytes: self.bytes,
            idle: self.idle,
        }
    }
}

impl RealtimeRead {
    /// The number of the source instance.
    pub closed spec fn instance(&self) -> usize {
        self.inst
    }

    /// A read that begins with the given epoch and offsets.
    pub fn new(
        inst: usize,
        epoch: u64,
        start: AssocMap<TopicPartition, i64>,
        target_rows: usize,
        max_bytes: usize,
    ) -> (read: Self)
        ensures
            read.instance() == inst,
            read@ == (RealtimeModel {
                epoch,
                next: start@,
                target_rows,
                max_bytes,
                rows: 0,
                bytes: 0,
                idle: false,
            }),
    {
        RealtimeRead {
            inst,
            epoch,
            next: start,
            target_rows,
            max_bytes,
            rows: 0,
            bytes: 0,
            idle: false,
        }
    }

    /// The name under which the source reports that it is idle.
    pub fn idle_source(&self) -> (name: String)
        ensures
            name@ == "kafka:"@ + decimal(self.instance() as nat),
    {
        let mut name = "kafka:".to_owned();
        text::push_decimal(&mut name, self.inst as u64);
        name
    }

    /// The checkpoint object that stages the offsets reached for an epoch: its key and its bytes.
    /// Reading the bytes back gives the offsets.
    pub fn staged_offsets(&self, epoch: u64) -> (object: (String, Option<Vec<u8>>))
        ensures
            object.0@ == staged_epoch_key_of(self.instance() as nat, epoch as nat),
            object.1 is Some,
            object.1->0@ == offsets_json(named_offsets(self@.next)),
            stored_offsets(Some(object.1->0@)) == self@.next,
    {
        (staged_epoch_key(self.inst, epoch), encode_offsets(&self.next))
    }

    fn flush(&mut self, outputs: &mut Vec<RealtimeOutput>)
        ensures
            final(self)@ == old(self)@.flushed(),
            final(self).instance() == old(self).instance(),
            final(outputs)@ == old(outputs)@ + batch_if(old(self)@.rows),
    {
        if self.rows > 0 {
            outputs.push(RealtimeOutput::Batch);
            self.rows = 0;
            self.bytes = 0;
            assert(outputs@ =~= old(outputs)@ + batch_if(old(self)@.rows));
        } else {
            assert(outputs@ =~= old(outputs)@ + batch_if(old(self)@.rows));
        }
    }

    /// The epoch interval has passed.
    pub fn epoch_tick(&mut self) -> (outputs: Vec<RealtimeOutput>)
        requires
            old(self)@.epoch < u64::MAX,
        ensures
            final(self).instance() == old(self).instance(),
            final(self)@ == old(self)@.after_epoch(),
            outputs@ == old(self)@.epoch_outputs(),
    {
        let mut outputs: Vec<RealtimeOutput> = Vec::new();
        self.flush(&mut outputs);
        outputs.push(RealtimeOutput::Stage { epoch: self.epoch });
        outputs.push(RealtimeOutput::Checkpoint { epoch: self.epoch });
        assert(outputs@ =~= old(self)@.epoch_outputs());
        self.epoch = self.epoch + 1;
        outputs
    }

    /// The flush interval has passed.
    pub fn flush_tick(&mut self) -> (outputs: Vec<RealtimeOutput>)
        ensures
            final(self).instance() == old(self).instance(),
            final(self)@ == old(self)@.flushed(),
            outputs@ == batch_if(old(self)@.rows),
    {
        let mut outputs: Vec<RealtimeOutput> = Vec::new();
        self.flush(&mut outputs);
        assert(outputs@ =~= batch_if(old(self)@.rows));
        outputs
    }

    /// A record with a key and value of the given sizes has arrived, and belongs to the batch.
    pub fn message(
        &mut self,
        topic: &str,
        partition: i32,
        offset: i64,
        key_len: usize,
        value_len: usize,
    ) -> (outputs: Vec<RealtimeOutput>)
        requires
            offset < i64::MAX,
            old(self)@.rows < usize::MAX,
            old(self)@.bytes + value_len + key_len + encode_utf8(topic@).len() <= usize::MAX,
        ensures
            final(self).instance() == old(self).instance(),
            final(self)@ == old(self)@.after_record(
                topic@,
                partition,
                offset,
                value_len + key_len + encode_utf8(topic@).len(),
            ),
            outputs@ == old(self)@.record_outputs(
                topic@,
                partition,
                offset,
                value_len + key_len + encode_utf8(topic@).len(),
            ),
    {
        let mut outputs: Vec<RealtimeOutput> = Vec::new();
        self.idle = false;
        let size: usize = value_len + key_len + topic.len();
        self.bytes = self.bytes + size;
        let key = TopicPartition { topic: topic.to_owned(), partition };
        self.next.insert(key, offset + 1);
        self.rows = self.rows + 1;
        if self.rows >= self.target_rows || self.bytes >= self.max_bytes {
            self.flush(&mut outputs);
            assert(outputs@ =~= seq![RealtimeOutput::Batch]);
        }
        outputs
    }

    /// The head of a partition was reached.
    pub fn partition_eof(&mut self) -> (outputs: Vec<RealtimeOutput>)
        ensures
            final(self).instance() == old(self).instance(),
            final(self)@ == old(self)@.after_head(),
            outputs@ == old(self)@.head_outputs(),
    {
        let mut outputs: Vec<RealtimeOutput> = Vec::new();
        self.flush(&mut outputs);
        if !self.idle {
            self.idle = true;
            outputs.push(RealtimeOutput::Idle);
        }
        assert(outputs@ =~= old(self)@.head_outputs());
        outputs
    }

    /// The reader of one partition has handed over a batch and reached an offset. The batch is
    /// handed out at once.
    pub fn reader_batch(&mut self, topic: &str, partition: i32, next: i64) -> (outputs: Vec<
        RealtimeOutput,
    >)
        ensures
            final(self).instance() == old(self).instance(),
            final(self)@ == (RealtimeModel {
                next: old(self)@.next.insert((topic@, partition), next),
                idle: false,
                ..old(self)@
            }),
            outputs@ == seq![RealtimeOutput::Batch],
    {
        self.idle = false;
        let key = TopicPartition { topic: topic.to_owned(), partition };
        self.next.insert(key, next);
        let mut outputs: Vec<RealtimeOutput> = Vec::new();
        outputs.push(RealtimeOutput::Batch);
        assert(outputs@ =~= seq![RealtimeOutput::Batch]);
        outputs
    }
}

/// The barrier of an epoch comes behind the rows that were collected before it, and behind the
/// staging of their offsets; no row stays behind.
pub proof fn law_barrier_follows_its_data(m: RealtimeModel)
    ensures
        m.after_epoch().rows == 0,
        m.epoch_outputs().last() == (RealtimeOutput::Checkpoint { epoch: m.epoch }),
        m.epoch_outputs()[m.epoch_outputs().len() - 2] == (RealtimeOutput::Stage {
            epoch: m.epoch,
        }),
        m.rows > 0 ==> m.epoch_outputs()[0] == RealtimeOutput::Batch,
        m.after_epoch().next == m.next,
{
}

/// The end of an epoch stages offsets that cover a record received during it: the epoch's offset
/// of its partition is right behind the record unless a later record moved it.
pub proof fn law_record_is_covered_by_its_epoch(
    m: RealtimeModel,
    topic: Seq<char>,
    partition: i32,
    offset: i64,
    size: int,
)
    requires
        offset < i64::MAX,
    ensures
        m.after_record(topic, partition, offset, size).next[(topic, partition)] == offset + 1,
        m.after_record(topic, partition, offset, size).epoch == m.epoch,
        forall|tp: (Seq<char>, i32)|
            tp != (topic, partition) && #[trigger] m.next.contains_key(tp) ==> m.after_record(
                topic,
                partition,
                offset,
                size,
            ).next[tp] == m.next[tp],
{
}

/// The epochs of successive barriers are successive numbers.
pub proof fn law_epochs_are_consecutive(m: RealtimeModel)
    requires
        m.epoch < u64::MAX - 1,
    ensures
        m.after_epoch().epoch_outputs().last() == (RealtimeOutput::Checkpoint {
            epoch: (m.epoch + 1) as u64,
        }),
{
}

/// Idleness is reported once until a record arrives, and after that again.
pub proof fn law_idle_is_reported_once(
    m: RealtimeModel,
    topic: Seq<char>,
    partition: i32,
    offset: i64,
    size: int,
)
    ensures
        m.after_head().head_outputs() == Seq::<RealtimeOutput>::empty(),
        m.after_record(topic, partition, offset, size).head_outputs().last()
            == RealtimeOutput::Idle,
{
    assert(m.after_head().head_outputs() =~= Seq::<RealtimeOutput>::empty());
}

/// A record fills the batch up to its limits: the batch is handed out with it exactly when it has the
/// rows or the bytes that are asked for, and is then empty; until then it grows by the record.
pub proof fn law_batch_is_handed_out_when_full(
    m: RealtimeModel,
    topic: Seq<char>,
    partition: i32,
    offset: i64,
    size: int,
)
    requires
        0 <= size,
        m.rows < usize::MAX,
        m.bytes + size <= usize::MAX,
    ensures
        ({
            let after = m.after_record(topic, partition, offset, size);
            let outputs = m.record_outputs(topic, partition, offset, size);
            let full = m.rows + 1 >= m.target_rows || m.bytes + size >= m.max_bytes;
            &&& full ==> outputs == seq![RealtimeOutput::Batch] && after.rows == 0 && after.bytes
                == 0
            &&& !full ==> outputs.len() == 0 && after.rows == m.rows + 1 && after.bytes == m.bytes
                + size
            &&& !after.idle
            &&& after.epoch == m.epoch && after.target_rows == m.target_rows && after.max_bytes
                == m.max_bytes
            &&& after.next.dom() == m.next.dom().insert((topic, partition))
        }),
{
    assert(m.after_record(topic, partition, offset, size).next.dom() =~= m.next.dom().insert(
        (topic, partition),
    ));
}

/// At the end of an epoch, at a flush and at the head of the stream the batch is handed out where it
/// has rows, first of all, and is then empty; the offsets stay.
pub proof fn law_ticks_hand_out_the_batch(m: RealtimeModel)
    ensures
        m.epoch_outputs().len() == if m.rows > 0 {
            3nat
        } else {
            2nat
        },
        m.epoch_outputs().filter(|o: RealtimeOutput| o == RealtimeOutput::Batch).len() <= 1,
        m.head_outputs().len() == (if m.rows > 0 {
            1nat
        } else {
            0nat
        }) + (if m.idle {
            0nat
        } else {
            1nat
        }),
        m.rows > 0 ==> m.head_outputs()[0] == RealtimeOutput::Batch,
        !m.idle ==> m.head_outputs().last() == RealtimeOutput::Idle,
        m.after_head().idle,
        m.after_head().rows == 0,
        m.rows > 0 ==> m.after_head().bytes == 0 && m.after_epoch().bytes == 0,
        m.rows == 0 ==> m.after_head().bytes == m.bytes,
        m.after_head().next == m.next && m.after_head().epoch == m.epoch,
        m.after_epoch().idle == m.idle,
        m.epoch < u64::MAX ==> m.after_epoch().epoch == m.epoch + 1,
        m.after_head().target_rows == m.target_rows && m.after_head().max_bytes == m.max_bytes,
        m.after_epoch().target_rows == m.target_rows && m.after_epoch().max_bytes == m.max_bytes,
        batch_if(m.rows).len() == 0 <==> m.rows == 0,
{
    reveal_with_fuel(Seq::filter, 5);
    let outputs = m.epoch_outputs();
    if m.rows > 0 {
        assert(outputs.drop_last().drop_last().drop_last() =~= Seq::<RealtimeOutput>::empty());
    } else {
        assert(outputs.drop_last().drop_last() =~= Seq::<RealtimeOutput>::empty());
    }
}

} // verus!
