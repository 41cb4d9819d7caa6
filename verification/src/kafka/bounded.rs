//! The bounded Kafka read: every owned partition up to the end that it had when the read began.

use vstd::prelude::*;
use vstd::utf8::encode_utf8;

use crate::assoc::AssocMap;
use crate::kafka::offsets::{
    law_pack_is_injective, law_unpack_pack, pack_tp, packed, unpack_tp, unpacked_index,
    unpacked_partition, TopicPartition,
};
use crate::text;
use crate::text::texts;

verus! {

/// A partition to read, from `start` up to, but without, `end`.
#[derive(Debug)]
pub struct Assignment {
    pub topic: String,
    pub partition: i32,
    pub start: i64,
    pub end: i64,
}

/// How far a partition has been read.
#[derive(Debug, Clone, Copy, PartialEq, Eq, Structural)]
pub struct SplitProgress {
    /// The offset of the next record.
    pub next: i64,
    /// The offset at which the read of the partition ends.
    pub end: i64,
}

/// What the driver of a read has to do next.
#[derive(Debug, Clone, Copy, PartialEq, Eq, Structural)]
pub enum BoundedAction {
    /// Take a buffered record; where there is none, wait for one, or do not.
    Poll { wait: bool },
    /// Hand out the collected batch.
    Emit,
    /// End the read.
    Finish,
}

/// The state of a bounded read.
#[verifier::ext_equal]
pub struct BoundedModel {
    pub splits: Map<(Seq<char>, i32), SplitProgress>,
    pub target_rows: usize,
    pub max_bytes: usize,
    pub max_empty_polls: u32,
    /// A batch with records does not wait for more.
    pub fast_drain: bool,
    pub rows: usize,
    pub bytes: usize,
    pub empty_polls: u32,
    /// The batch takes no more records: none came in time, or none was buffered.
    pub round_over: bool,
    /// The record stream has ended.
    pub closed: bool,
    pub finished: bool,
}

/// Whether some partition has not been read up to its end.
pub open spec fn unread(splits: Map<(Seq<char>, i32), SplitProgress>) -> bool {
    exists|tp: (Seq<char>, i32)| #[trigger]
        splits.contains_key(tp) && splits[tp].next < splits[tp].end
}

impl BoundedModel {
    /// What every reachable state satisfies.
    pub open spec fn valid(self) -> bool {
        self.finished || self.empty_polls == 0 || self.empty_polls < self.max_empty_polls
    }

    /// Whether the batch takes another record.
    pub open spec fn polling(self) -> bool {
        !self.finished && !self.round_over && self.rows < self.target_rows && self.bytes
            < self.max_bytes && unread(self.splits)
    }

    /// The state at the start of the next batch.
    pub open spec fn next_round(self) -> BoundedModel {
        BoundedModel { rows: 0, bytes: 0, round_over: false, closed: false, ..self }
    }

    /// Whether the record belongs to the read: its partition is assigned, and it lies before the
    /// end.
    pub open spec fn accepts(self, topic: Seq<char>, partition: i32, offset: i64) -> bool {
        self.splits.contains_key((topic, partition)) && offset < self.splits[(
            topic,
            partition,
        )].end
    }

    /// The state after a record.
    pub open spec fn received(
        self,
        topic: Seq<char>,
        partition: i32,
        offset: i64,
        size: int,
    ) -> BoundedModel {
        if self.accepts(topic, partition, offset) {
            BoundedModel {
                splits: self.splits.insert(
                    (topic, partition),
                    SplitProgress {
                        next: (offset + 1) as i64,
                        end: self.splits[(topic, partition)].end,
                    },
                ),
                rows: (self.rows + 1) as usize,
                bytes: (self.bytes + size) as usize,
                empty_polls: 0,
                ..self
            }
        } else {
            BoundedModel { empty_polls: 0, ..self }
        }
    }

    /// The state in which the read waits for the driver, and what the driver has to do. A batch
    /// with rows is handed out; without rows the read ends where everything is read, the stream
    /// has ended or too many polls came back empty, and else tries again.
    pub open spec fn settled(self) -> (BoundedModel, BoundedAction)
        decreases self.max_empty_polls - self.empty_polls,
    {
        if self.finished {
            (self, BoundedAction::Finish)
        } else if self.polling() {
            (self, BoundedAction::Poll { wait: self.rows == 0 || !self.fast_drain })
        } else if self.rows > 0 {
            (self, BoundedAction::Emit)
        } else if !unread(self.splits) || self.closed {
            (BoundedModel { finished: true, ..self }, BoundedAction::Finish)
        } else if self.empty_polls + 1 >= self.max_empty_polls {
            (
                BoundedModel {
                    finished: true,
                    empty_polls: (self.empty_polls + 1) as u32,
                    ..self
                },
                BoundedAction::Finish,
            )
        } else {
            BoundedModel {
                empty_polls: (self.empty_polls + 1) as u32,
                ..self.next_round()
            }.settled()
        }
    }
}

/// The splits by topic and partition.
pub open spec fn splits_by_name(
    topics: Seq<Seq<char>>,
    splits: Map<u64, SplitProgress>,
) -> Map<(Seq<char>, i32), SplitProgress> {
    Map::new(
        |tp: (Seq<char>, i32)|
            topics.contains(tp.0) && splits.contains_key(
                packed(topics.index_of(tp.0) as u32, tp.1) as u64,
            ),
        |tp: (Seq<char>, i32)| splits[packed(topics.index_of(tp.0) as u32, tp.1) as u64],
    )
}

/// Whether each key stands for a partition of a known topic.
pub open spec fn known_topics(topics: Seq<Seq<char>>, splits: Map<u64, SplitProgress>) -> bool {
    forall|k: u64| #[trigger] splits.contains_key(k) ==> unpacked_index(k as int) < topics.len()
}

proof fn lemma_insert_split(
    topics: Seq<Seq<char>>,
    splits: Map<u64, SplitProgress>,
    i: u32,
    part: i32,
    v: SplitProgress,
)
    requires
        topics.no_duplicates(),
        i < topics.len() <= u32::MAX,
        known_topics(topics, splits),
    ensures
        known_topics(topics, splits.insert(packed(i, part) as u64, v)),
        splits_by_name(topics, splits.insert(packed(i, part) as u64, v)) == splits_by_name(
            topics,
            splits,
        ).insert((topics[i as int], part), v),
        splits_by_name(topics, splits).contains_key((topics[i as int], part)) == splits.contains_key(
            packed(i, part) as u64,
        ),
        splits.contains_key(packed(i, part) as u64) ==> splits_by_name(topics, splits)[(
            topics[i as int],
            part,
        )] == splits[packed(i, part) as u64],
{
    law_unpack_pack(i, part);
    let t = topics[i as int];
    assert(topics.contains(t));
    assert(topics.index_of(t) == i);
    let after = splits.insert(packed(i, part) as u64, v);
    let a = splits_by_name(topics, after);
    let b = splits_by_name(topics, splits).insert((t, part), v);
    assert forall|tp: (Seq<char>, i32)| #[trigger] a.contains_key(tp) == b.contains_key(tp) by {
        if topics.contains(tp.0) {
            let j = topics.index_of(tp.0) as u32;
            law_unpack_pack(j, tp.1);
            if packed(j, tp.1) == packed(i, part) {
                law_pack_is_injective(j, tp.1, i, part);
            }
        }
    }
    assert forall|tp: (Seq<char>, i32)| #[trigger] a.contains_key(tp) implies a[tp] == b[tp] by {
        let j = topics.index_of(tp.0) as u32;
        law_unpack_pack(j, tp.1);
        if packed(j, tp.1) == packed(i, part) {
            law_pack_is_injective(j, tp.1, i, part);
        }
    }
    assert(a =~= b);
}

proof fn lemma_push_topic(
    topics: Seq<Seq<char>>,
    splits: Map<u64, SplitProgress>,
    t: Seq<char>,
)
    requires
        topics.no_duplicates(),
        !topics.contains(t),
        topics.len() < u32::MAX,
        known_topics(topics, splits),
    ensures
        topics.push(t).no_duplicates(),
        known_topics(topics.push(t), splits),
        splits_by_name(topics.push(t), splits) == splits_by_name(topics, splits),
{
    let more = topics.push(t);
    assert forall|x: int, y: int|
        0 <= x < more.len() && 0 <= y < more.len() && x != y implies more[x] != more[y] by {
        if x < topics.len() {
            assert(topics.contains(topics[x]));
        }
        if y < topics.len() {
            assert(topics.contains(topics[y]));
        }
    }
    let a = splits_by_name(more, splits);
    let b = splits_by_name(topics, splits);
    assert(more[topics.len() as int] == t);
    assert forall|tp: (Seq<char>, i32)| #[trigger] a.contains_key(tp) == b.contains_key(tp) by {
        if tp.0 == t {
            assert(more.contains(t));
            assert(more.index_of(t) == topics.len());
            law_unpack_pack(topics.len() as u32, tp.1);
        } else if topics.contains(tp.0) {
            assert(more[topics.index_of(tp.0)] == tp.0);
            assert(more.index_of(tp.0) == topics.index_of(tp.0));
        } else if more.contains(tp.0) {
            assert(topics[more.index_of(tp.0)] == tp.0);
        }
    }
    assert forall|tp: (Seq<char>, i32)| #[trigger] b.contains_key(tp) implies a[tp] == b[tp] by {
        assert(more[topics.index_of(tp.0)] == tp.0);
        assert(more.index_of(tp.0) == topics.index_of(tp.0));
    }
    assert(a =~= b);
}

/// The progress of the assigned partitions before the read; a repeated one counts as last given.
pub open spec fn assigned_splits(assignments: Seq<Assignment>) -> Map<
    (Seq<char>, i32),
    SplitProgress,
>
    decreases assignments.len(),
{
    if assignments.len() == 0 {
        Map::empty()
    } else {
        let a = assignments.last();
        assigned_splits(assignments.drop_last()).insert(
            (a.topic@, a.partition),
            SplitProgress { next: a.start, end: a.end },
        )
    }
}

/// The next offset of each partition.
pub open spec fn reached(splits: Map<(Seq<char>, i32), SplitProgress>) -> Map<
    (Seq<char>, i32),
    i64,
> {
    splits.map_values(|s: SplitProgress| s.next)
}

/// A bounded read.
#[derive(Debug)]
pub struct BoundedRead {
    topics: Vec<String>,
    splits: AssocMap<u64, SplitProgress>,
    target_rows: usize,
    max_bytes: usize,
    max_empty_polls: u32,
    fast_drain: bool,
    rows: usize,
    bytes: usize,
    empty_polls: u32,
    round_over: bool,
    closed: bool,
    finished: bool,
}

impl View for BoundedRead {
    type V = BoundedModel;

    closed spec fn view(&self) -> BoundedModel {
        BoundedModel {
            splits: splits_by_name(texts(self.topics@), self.splits@),
            target_rows: self.target_rows,
            max_bytes: self.max_bytes,
            max_empty_polls: self.max_empty_polls,
            fast_drain: self.fast_drain,
            rows: self.rows,
            bytes: self.bytes,
            empty_polls: self.empty_polls,
            round_over: self.round_over,
            closed: self.closed,
            finished: self.finished,
        }
    }
}

impl BoundedRead {
    /// Whether the state is one that a read can reach.
    pub closed spec fn valid(&self) -> bool {
        &&& texts(self.topics@).no_duplicates()
        &&& self.topics@.len() <= u32::MAX
        &&& known_topics(texts(self.topics@), self.splits@)
        &&& self@.valid()
    }

    fn topic_index(topics: &Vec<String>, topic: &str) -> (index: Option<usize>)
        ensures
            match index {
                Some(i) => i < topics@.len() && texts(topics@)[i as int] == topic@,
                None => !texts(topics@).contains(topic@),
            },
    {
        let mut i: usize = 0;
        while i < topics.len()
            invariant
                i <= topics@.len(),
                forall|j: int| 0 <= j < i ==> #[trigger] texts(topics@)[j] != topic@,
            decreases topics@.len() - i,
        {
            assert(texts(topics@)[i as int] == topics@[i as int]@);
            if text::str_eq(topics[i].as_str(), topic) {
                return Some(i);
            }
            i = i + 1;
        }
        None
    }

    /// A read of the assigned partitions in batches of at most `target_rows` rows or about
    /// `max_bytes` bytes. With `fast_drain`, a batch is handed out as soon as no further record is
    /// buffered.
    pub fn new(
        assignments: &[Assignment],
        target_rows: usize,
        max_bytes: usize,
        max_empty_polls: u32,
        fast_drain: bool,
    ) -> (read: Self)
        requires
            assignments@.len() <= u32::MAX,
        ensures
            read.valid(),
            read@ == (BoundedModel {
                splits: assigned_splits(assignments@),
                target_rows,
                max_bytes,
                max_empty_polls,
                fast_drain,
                rows: 0,
                bytes: 0,
                empty_polls: 0,
                round_over: false,
                closed: false,
                finished: false,
            }),
    {
        let mut topics: Vec<String> = Vec::new();
        let mut splits: AssocMap<u64, SplitProgress> = AssocMap::new();
        let mut i: usize = 0;
        proof {
            assert(assignments@.take(0) =~= Seq::<Assignment>::empty());
            assert(splits_by_name(texts(topics@), splits@) =~= Map::<
                (Seq<char>, i32),
                SplitProgress,
            >::empty());
        }
        while i < assignments.len()
            invariant
                i <= assignments@.len() <= u32::MAX,
                topics@.len() <= i,
                texts(topics@).no_duplicates(),
                known_topics(texts(topics@), splits@),
                splits_by_name(texts(topics@), splits@) == assigned_splits(
                    assignments@.take(i as int),
                ),
            decreases assignments@.len() - i,
        {
            proof {
                assert(assignments@.take(i + 1).drop_last() =~= assignments@.take(i as int));
                assert(assignments@.take(i + 1).last() == assignments@[i as int]);
            }
            let a = &assignments[i];
            let index: usize = match Self::topic_index(&topics, a.topic.as_str()) {
                Some(index) => index,
                None => {
                    let ghost before = texts(topics@);
                    proof {
                        lemma_push_topic(before, splits@, a.topic@);
                    }
                    topics.push(a.topic.clone());
                    assert(texts(topics@) =~= before.push(a.topic@));
                    topics.len() - 1
                },
            };
            proof {
                lemma_insert_split(
                    texts(topics@),
                    splits@,
                    index as u32,
                    a.partition,
                    SplitProgress { next: a.start, end: a.end },
                );
            }
            splits.insert(
                pack_tp(index as u32, a.partition),
                SplitProgress { next: a.start, end: a.end },
            );
            i = i + 1;
        }
        assert(assignments@.take(i as int) =~= assignments@);
        BoundedRead {
            topics,
            splits,
            target_rows,
            max_bytes,
            max_empty_polls,
            fast_drain,
            rows: 0,
            bytes: 0,
            empty_polls: 0,
            round_over: false,
            closed: false,
            finished: false,
        }
    }

    fn has_unread(&self) -> (found: bool)
        requires
            self.valid(),
        ensures
            found == unread(self@.splits),
    {
        let n: usize = self.splits.len();
        let mut i: usize = 0;
        let ghost names = texts(self.topics@);
        while i < n
            invariant
                n == self.splits.entries().len(),
                i <= n,
                self.valid(),
                names == texts(self.topics@),
                forall|j: int|
                    0 <= j < i ==> (#[trigger] self.splits.entries()[j]).1.next
                        >= self.splits.entries()[j].1.end,
            decreases n - i,
        {
            let entry = self.splits.entry(i);
            if entry.1.next < entry.1.end {
                proof {
                    let k = entry.0;
                    let idx = unpacked_index(k as int) as u32;
                    let part = unpacked_partition(k as int) as i32;
                    let tp = (names[idx as int], part);
                    assert(packed(idx, part) == k);
                    assert(names.contains(names[idx as int]));
                    assert(names.index_of(names[idx as int]) == idx);
                    assert(self@.splits.contains_key(tp));
                }
                return true;
            }
            i = i + 1;
        }
        proof {
            assert forall|tp: (Seq<char>, i32)| #[trigger]
                self@.splits.contains_key(tp) implies self@.splits[tp].next
                >= self@.splits[tp].end by {
                let k = packed(names.index_of(tp.0) as u32, tp.1) as u64;
                assert(self.splits@.contains_key(k));
                let j = crate::assoc::key_index(self.splits.entries(), k);
                assert(self.splits.entries()[j].0 == k);
            }
        }
        false
    }

    /// Decides what to do next.
    pub fn next_action(&mut self) -> (action: BoundedAction)
        requires
            old(self).valid(),
        ensures
            final(self).valid(),
            (final(self)@, action) == old(self)@.settled(),
    {
        loop
            invariant
                self.valid(),
                self@.settled() == old(self)@.settled(),
            decreases self.max_empty_polls - self.empty_polls,
        {
            if self.finished {
                return BoundedAction::Finish;
            }
            let left = self.has_unread();
            if !self.round_over && self.rows < self.target_rows && self.bytes < self.max_bytes
                && left {
                return BoundedAction::Poll { wait: self.rows == 0 || !self.fast_drain };
            }
            if self.rows > 0 {
                return BoundedAction::Emit;
            }
            if !left || self.closed {
                self.finished = true;
                return BoundedAction::Finish;
            }
            let ghost before = self@;
            if self.max_empty_polls == 0 || self.empty_polls >= self.max_empty_polls - 1 {
                self.finished = true;
                self.empty_polls = self.empty_polls + 1;
                return BoundedAction::Finish;
            }
            self.empty_polls = self.empty_polls + 1;
            self.bytes = 0;
            self.round_over = false;
            self.closed = false;
            assert(self@ == (BoundedModel {
                empty_polls: (before.empty_polls + 1) as u32,
                ..before.next_round()
            }));
        }
    }

    /// Takes note of a record with a key and value of the given sizes. Says whether it belongs to
    /// the batch: its partition is assigned, and it lies before the end.
    pub fn message(
        &mut self,
        topic: &str,
        partition: i32,
        offset: i64,
        key_len: usize,
        value_len: usize,
    ) -> (accepted: bool)
        requires
            old(self).valid(),
            old(self)@.polling(),
            old(self)@.bytes + value_len + key_len + encode_utf8(topic@).len() <= usize::MAX,
        ensures
            final(self).valid(),
            accepted == old(self)@.accepts(topic@, partition, offset),
            final(self)@ == old(self)@.received(
                topic@,
                partition,
                offset,
                value_len + key_len + encode_utf8(topic@).len(),
            ),
    {
        self.empty_polls = 0;
        let ghost names = texts(self.topics@);
        let index: usize = match Self::topic_index(&self.topics, topic) {
            Some(index) => index,
            None => {
                return false;
            },
        };
        let ghost before = self.splits@;
        proof {
            assert(names.contains(topic@));
            lemma_insert_split(
                names,
                before,
                index as u32,
                partition,
                SplitProgress { next: 0, end: 0 },
            );
        }
        let key: u64 = pack_tp(index as u32, partition);
        let split = match self.splits.lookup(&key) {
            Some(split) => *split,
            None => {
                return false;
            },
        };
        if offset >= split.end {
            return false;
        }
        let size: usize = value_len + key_len + topic.len();
        self.bytes = self.bytes + size;
        self.rows = self.rows + 1;
        let progress = SplitProgress { next: offset + 1, end: split.end };
        self.splits.insert(key, progress);
        proof {
            lemma_insert_split(names, before, index as u32, partition, progress);
        }
        true
    }

    /// Takes note that a poll gave no record: none was buffered, none came in time, or the stream
    /// has ended.
    pub fn poll_ended(&mut self, closed: bool)
        requires
            old(self).valid(),
            old(self)@.polling(),
        ensures
            final(self).valid(),
            final(self)@ == (BoundedModel { round_over: true, closed, ..old(self)@ }),
    {
        self.round_over = true;
        self.closed = closed;
    }

    /// Takes note that the collected batch was handed out.
    pub fn emitted(&mut self)
        requires
            old(self).valid(),
        ensures
            final(self).valid(),
            final(self)@ == old(self)@.next_round(),
    {
        self.rows = 0;
        self.bytes = 0;
        self.round_over = false;
        self.closed = false;
    }

    /// Takes note of the next offset that the reader of one partition has reached. An unknown
    /// partition is ignored.
    pub fn reader_reached(&mut self, topic: &str, partition: i32, next: i64)
        requires
            old(self).valid(),
        ensures
            final(self).valid(),
            final(self)@ == if old(self)@.splits.contains_key((topic@, partition)) {
                BoundedModel {
                    splits: old(self)@.splits.insert(
                        (topic@, partition),
                        SplitProgress {
                            next,
                            end: old(self)@.splits[(topic@, partition)].end,
                        },
                    ),
                    ..old(self)@
                }
            } else {
                old(self)@
            },
    {
        let ghost names = texts(self.topics@);
        let ghost before = self.splits@;
        if let Some(index) = Self::topic_index(&self.topics, topic) {
            proof {
                assert(names.contains(topic@));
                lemma_insert_split(
                    names,
                    before,
                    index as u32,
                    partition,
                    SplitProgress { next: 0, end: 0 },
                );
            }
            let key: u64 = pack_tp(index as u32, partition);
            let found = match self.splits.lookup(&key) {
                Some(split) => Some(split.end),
                None => None,
            };
            if let Some(end) = found {
                let progress = SplitProgress { next, end };
                self.splits.insert(key, progress);
                proof {
                    lemma_insert_split(names, before, index as u32, partition, progress);
                }
            }
        }
    }

    /// The next offset of each partition, in the form in which offsets are made durable.
    pub fn durable_offsets(&self) -> (offsets: AssocMap<TopicPartition, i64>)
        requires
            self.valid(),
        ensures
            offsets@ == reached(self@.splits),
    {
        let mut offsets: AssocMap<TopicPartition, i64> = AssocMap::new();
        let n: usize = self.splits.len();
        let mut i: usize = 0;
        let ghost names = texts(self.topics@);
        let ghost es = self.splits.entries();
        while i < n
            invariant
                n == es.len(),
                es == self.splits.entries(),
                names == texts(self.topics@),
                i <= n,
                self.valid(),
                crate::assoc::distinct_keys(es),
                forall|tp: (Seq<char>, i32)| #[trigger]
                    offsets@.contains_key(tp) ==> reached(self@.splits).contains_key(tp)
                        && offsets@[tp] == reached(self@.splits)[tp],
                forall|j: int|
                    0 <= j < i ==> offsets@.contains_key(
                        (
                            names[unpacked_index((#[trigger] es[j]).0 as int)],
                            unpacked_partition(es[j].0 as int) as i32,
                        ),
                    ),
            decreases n - i,
        {
            let entry = self.splits.entry(i);
            let (idx, part) = unpack_tp(entry.0);
            proof {
                assert(unpacked_index(entry.0 as int) == idx);
                assert(unpacked_partition(entry.0 as int) == part);
                assert(packed(idx, part) == entry.0);
                assert(names[idx as int] == self.topics@[idx as int]@);
                assert(names.contains(names[idx as int]));
                assert(names.index_of(names[idx as int]) == idx);
                assert(self@.splits.contains_key((names[idx as int], part)));
            }
            let topic = self.topics[idx as usize].clone();
            offsets.insert(TopicPartition { topic, partition: part }, entry.1.next);
            i = i + 1;
        }
        proof {
            assert forall|tp: (Seq<char>, i32)| #[trigger]
                reached(self@.splits).contains_key(tp) implies offsets@.contains_key(tp) by {
                let idx = names.index_of(tp.0) as u32;
                let k = packed(idx, tp.1) as u64;
                law_unpack_pack(idx, tp.1);
                assert(self.splits@.contains_key(k));
                let j = crate::assoc::key_index(es, k);
                assert(es[j].0 == k);
            }
            assert(offsets@ =~= reached(self@.splits));
        }
        offsets
    }
}

/// A read ends only where every partition has been read up to its end, the record stream has
/// ended, or as many polls as allowed came back empty in a row: a late record does not cut it
/// short.
pub proof fn law_read_ends_complete_closed_or_stalled(m: BoundedModel)
    requires
        m.valid(),
        !m.finished,
        m.settled().1 is Finish,
    ensures
        !unread(m.splits) || m.closed || m.settled().0.empty_polls >= m.max_empty_polls,
        m.settled().0.splits == m.splits,
    decreases m.max_empty_polls - m.empty_polls,
{
    if !m.polling() && m.rows == 0 && unread(m.splits) && !m.closed && m.empty_polls + 1
        < m.max_empty_polls {
        let next = BoundedModel {
            empty_polls: (m.empty_polls + 1) as u32,
            ..m.next_round()
        };
        law_read_ends_complete_closed_or_stalled(next);
    }
}

/// A record that is accepted moves its partition, and no other, right behind the record, which
/// lies before the end.
pub proof fn law_accepted_record_advances_its_partition(
    m: BoundedModel,
    topic: Seq<char>,
    partition: i32,
    offset: i64,
    size: int,
)
    requires
        m.accepts(topic, partition, offset),
    ensures
        ({
            let after = m.received(topic, partition, offset, size);
            &&& after.splits[(topic, partition)].next == offset + 1
            &&& after.splits[(topic, partition)].next <= after.splits[(topic, partition)].end
            &&& after.splits.dom() == m.splits.dom()
            &&& after.empty_polls == 0
            &&& forall|tp: (Seq<char>, i32)|
                tp != (topic, partition) && #[trigger] m.splits.contains_key(tp)
                    ==> after.splits[tp] == m.splits[tp]
        }),
{
    let after = m.received(topic, partition, offset, size);
    assert(after.splits.dom() =~= m.splits.dom());
}

/// What a read does next, by what is left and what is collected: it never ends with records in hand;
/// it takes records while the batch is not full, waiting for one where it has none; a batch with
/// records is handed out once it is full, its round is over or nothing is left.
pub proof fn law_bounded_read_decides(m: BoundedModel)
    requires
        !m.finished,
    ensures
        ({
            let left = exists|tp: (Seq<char>, i32)| #[trigger]
                m.splits.contains_key(tp) && m.splits[tp].next < m.splits[tp].end;
            let full = m.rows >= m.target_rows || m.bytes >= m.max_bytes;
            &&& left && !full && !m.round_over ==> m.settled() == (
                m,
                BoundedAction::Poll { wait: m.rows == 0 || !m.fast_drain },
            )
            &&& m.rows > 0 && (full || m.round_over || !left) ==> m.settled() == (
                m,
                BoundedAction::Emit,
            )
            &&& m.rows == 0 && !left ==> m.settled().1 == BoundedAction::Finish
                && m.settled().0.finished
            &&& m.rows == 0 && m.closed && (full || m.round_over) ==> m.settled().1
                == BoundedAction::Finish && m.settled().0.finished
        }),
{
}

/// A round without a record is followed by another one that waits, until as many rounds as allowed
/// brought none: then the read ends.
pub proof fn law_empty_rounds_are_counted(m: BoundedModel)
    requires
        !m.finished,
        m.rows == 0,
        m.round_over,
        !m.closed,
        unread(m.splits),
        m.empty_polls < u32::MAX,
    ensures
        m.empty_polls + 1 < m.max_empty_polls && m.target_rows > 0 && m.max_bytes > 0 ==> {
            let (after, action) = m.settled();
            &&& action == (BoundedAction::Poll { wait: true })
            &&& after.empty_polls == m.empty_polls + 1
            &&& after.rows == 0 && after.bytes == 0 && !after.round_over && !after.finished
            &&& after.splits == m.splits
        },
        m.empty_polls + 1 >= m.max_empty_polls ==> m.settled().1 == BoundedAction::Finish
            && m.settled().0.finished && m.settled().0.splits == m.splits,
{
    let next = BoundedModel { empty_polls: (m.empty_polls + 1) as u32, ..m.next_round() };
    if m.empty_polls + 1 < m.max_empty_polls {
        assert(m.settled() == next.settled());
    }
}

/// A read that has ended stays ended, and no decision changes how far the partitions were read, nor
/// the limits.
pub proof fn law_decisions_keep_the_progress(m: BoundedModel)
    ensures
        m.finished ==> m.settled() == (m, BoundedAction::Finish),
        m.settled().0.splits == m.splits,
        m.settled().0.target_rows == m.target_rows,
        m.settled().0.max_bytes == m.max_bytes,
        m.settled().0.max_empty_polls == m.max_empty_polls,
        m.settled().0.fast_drain == m.fast_drain,
        m.settled().1 == BoundedAction::Finish ==> m.settled().0.finished,
        m.settled().1 == BoundedAction::Emit ==> m.rows > 0,
        m.settled().1 is Poll ==> unread(m.splits),
    decreases m.max_empty_polls - m.empty_polls,
{
    if !m.finished && !m.polling() && m.rows == 0 && unread(m.splits) && !m.closed && m.empty_polls
        + 1 < m.max_empty_polls {
        law_decisions_keep_the_progress(
            BoundedModel { empty_polls: (m.empty_polls + 1) as u32, ..m.next_round() },
        );
    }
}

/// A record counts with its size where it lies before the end of a partition that is read, and is
/// skipped otherwise; either way the source is alive.
pub proof fn law_records_before_the_end_count(
    m: BoundedModel,
    topic: Seq<char>,
    partition: i32,
    offset: i64,
    size: int,
)
    requires
        0 <= size,
        m.rows < usize::MAX,
        m.bytes + size <= usize::MAX,
    ensures
        ({
            let tp = (topic, partition);
            let after = m.received(topic, partition, offset, size);
            let wanted = m.splits.contains_key(tp) && offset < m.splits[tp].end;
            &&& m.accepts(topic, partition, offset) == wanted
            &&& wanted ==> after.rows == m.rows + 1 && after.bytes == m.bytes + size
                && after.splits[tp].end == m.splits[tp].end
            &&& !wanted ==> after.rows == m.rows && after.bytes == m.bytes && after.splits
                == m.splits
            &&& after.empty_polls == 0
            &&& after.round_over == m.round_over && after.closed == m.closed && after.finished
                == m.finished
        }),
{
}

/// The partitions of a read are those that were assigned, each with the start and the end that its
/// last assignment gave.
pub proof fn law_assigned_partitions_are_read(assignments: Seq<Assignment>)
    ensures
        forall|tp: (Seq<char>, i32)| #[trigger]
            assigned_splits(assignments).contains_key(tp) <==> exists|i: int|
                0 <= i < assignments.len() && (#[trigger] assignments[i]).topic@ == tp.0
                    && assignments[i].partition == tp.1,
        forall|i: int|
            0 <= i < assignments.len() && (forall|j: int|
                i < j < assignments.len() ==> !((#[trigger] assignments[j]).topic@
                    == assignments[i].topic@ && assignments[j].partition
                    == assignments[i].partition)) ==> {
                let tp = ((#[trigger] assignments[i]).topic@, assignments[i].partition);
                assigned_splits(assignments)[tp] == (SplitProgress {
                    next: assignments[i].start,
                    end: assignments[i].end,
                })
            },
    decreases assignments.len(),
{
    if assignments.len() > 0 {
        let rest = assignments.drop_last();
        let n = assignments.len() - 1;
        law_assigned_partitions_are_read(rest);
        assert forall|tp: (Seq<char>, i32)| #[trigger]
            assigned_splits(assignments).contains_key(tp) <==> exists|i: int|
                0 <= i < assignments.len() && (#[trigger] assignments[i]).topic@ == tp.0
                    && assignments[i].partition == tp.1 by {
            if assigned_splits(rest).contains_key(tp) {
                let i = choose|i: int|
                    0 <= i < rest.len() && (#[trigger] rest[i]).topic@ == tp.0 && rest[i].partition
                        == tp.1;
                assert(assignments[i] == rest[i]);
            }
            if exists|i: int|
                0 <= i < assignments.len() && (#[trigger] assignments[i]).topic@ == tp.0
                    && assignments[i].partition == tp.1 {
                let i = choose|i: int|
                    0 <= i < assignments.len() && (#[trigger] assignments[i]).topic@ == tp.0
                        && assignments[i].partition == tp.1;
                if i < n {
                    assert(rest[i] == assignments[i]);
                }
            }
            if tp == (assignments.last().topic@, assignments.last().partition) {
                assert(assignments[n].topic@ == tp.0 && assignments[n].partition == tp.1);
            }
        }
        assert forall|i: int|
            0 <= i < assignments.len() && (forall|j: int|
                i < j < assignments.len() ==> !((#[trigger] assignments[j]).topic@
                    == assignments[i].topic@ && assignments[j].partition
                    == assignments[i].partition)) implies {
            let tp = ((#[trigger] assignments[i]).topic@, assignments[i].partition);
            assigned_splits(assignments)[tp] == (SplitProgress {
                next: assignments[i].start,
                end: assignments[i].end,
            })
        } by {
            if i < n {
                assert(rest[i] == assignments[i]);
                assert(!(assignments[n].topic@ == assignments[i].topic@ && assignments[n].partition
                    == assignments[i].partition));
                assert forall|j: int| i < j < rest.len() implies !((#[trigger] rest[j]).topic@
                    == rest[i].topic@ && rest[j].partition == rest[i].partition) by {
                    assert(assignments[j] == rest[j]);
                }
            }
        }
    }
}

/// The offsets of a read are those of the next records, one for each partition.
pub proof fn law_offsets_are_where_the_read_stands(splits: Map<(Seq<char>, i32), SplitProgress>)
    ensures
        reached(splits).dom() == splits.dom(),
        forall|tp: (Seq<char>, i32)| #[trigger]
            splits.contains_key(tp) ==> reached(splits)[tp] == splits[tp].next,
{
    assert(reached(splits).dom() =~= splits.dom());
}

} // verus!
