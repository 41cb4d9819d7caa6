//! Column-wise collection of Kafka records, for the projected columns only.

use vstd::prelude::*;

use crate::bytes;

verus! {

/// The number of columns of a Kafka record.
pub const COLUMN_COUNT: usize = 7;

/// A Kafka record.
#[verifier::ext_equal]
pub struct RecordModel {
    pub key: Option<Seq<u8>>,
    pub value: Option<Seq<u8>>,
    pub topic: Seq<char>,
    pub partition: i32,
    pub offset: i64,
    pub timestamp: i64,
    pub timestamp_type: i32,
}

/// When a record was written.
#[derive(Debug, Clone, Copy, PartialEq, Eq, Structural)]
pub enum RecordTimestamp {
    NotAvailable,
    CreateTime(i64),
    LogAppendTime(i64),
}

/// The timestamp column and the timestamp-type column of a record: `-1` in both where no time is
/// available, type `0` for the time of creation, `1` for the time of appending.
pub fn timestamp_columns(timestamp: RecordTimestamp) -> (columns: (i64, i32))
    ensures
        columns == match timestamp {
            RecordTimestamp::NotAvailable => (-1i64, -1i32),
            RecordTimestamp::CreateTime(ms) => (ms, 0i32),
            RecordTimestamp::LogAppendTime(ms) => (ms, 1i32),
        },
{
    match timestamp {
        RecordTimestamp::NotAvailable => (-1, -1),
        RecordTimestamp::CreateTime(ms) => (ms, 0),
        RecordTimestamp::LogAppendTime(ms) => (ms, 1),
    }
}

/// One column of collected records.
#[derive(Debug)]
pub enum KafkaColumn {
    Key(Vec<Option<Vec<u8>>>),
    Value(Vec<Option<Vec<u8>>>),
    Topic(Vec<String>),
    Partition(Vec<i32>),
    Offset(Vec<i64>),
    Timestamp(Vec<i64>),
    TimestampType(Vec<i32>),
}

/// One column of collected records.
#[verifier::ext_equal]
pub enum ColumnModel {
    Key(Seq<Option<Seq<u8>>>),
    Value(Seq<Option<Seq<u8>>>),
    Topic(Seq<Seq<char>>),
    Partition(Seq<i32>),
    Offset(Seq<i64>),
    Timestamp(Seq<i64>),
    TimestampType(Seq<i32>),
}

/// Optional byte strings as sequences.
pub open spec fn byte_cells(cells: Seq<Option<Vec<u8>>>) -> Seq<Option<Seq<u8>>> {
    cells.map_values(
        |c: Option<Vec<u8>>|
            match c {
                Some(b) => Some(b@),
                None => None,
            },
    )
}

impl View for KafkaColumn {
    type V = ColumnModel;

    open spec fn view(&self) -> ColumnModel {
        match self {
            KafkaColumn::Key(c) => ColumnModel::Key(byte_cells(c@)),
            KafkaColumn::Value(c) => ColumnModel::Value(byte_cells(c@)),
            KafkaColumn::Topic(c) => ColumnModel::Topic(crate::text::texts(c@)),
            KafkaColumn::Partition(c) => ColumnModel::Partition(c@),
            KafkaColumn::Offset(c) => ColumnModel::Offset(c@),
            KafkaColumn::Timestamp(c) => ColumnModel::Timestamp(c@),
            KafkaColumn::TimestampType(c) => ColumnModel::TimestampType(c@),
        }
    }
}

/// The keys of records.
pub open spec fn keys(rows: Seq<RecordModel>) -> Seq<Option<Seq<u8>>> {
    rows.map_values(|r: RecordModel| r.key)
}

/// The values of records.
pub open spec fn values(rows: Seq<RecordModel>) -> Seq<Option<Seq<u8>>> {
    rows.map_values(|r: RecordModel| r.value)
}

/// The topics of records.
pub open spec fn topics(rows: Seq<RecordModel>) -> Seq<Seq<char>> {
    rows.map_values(|r: RecordModel| r.topic)
}

/// The partitions of records.
pub open spec fn partitions(rows: Seq<RecordModel>) -> Seq<i32> {
    rows.map_values(|r: RecordModel| r.partition)
}

/// The offsets of records.
pub open spec fn offsets(rows: Seq<RecordModel>) -> Seq<i64> {
    rows.map_values(|r: RecordModel| r.offset)
}

/// The timestamps of records.
pub open spec fn timestamps(rows: Seq<RecordModel>) -> Seq<i64> {
    rows.map_values(|r: RecordModel| r.timestamp)
}

/// The timestamp types of records.
pub open spec fn timestamp_types(rows: Seq<RecordModel>) -> Seq<i32> {
    rows.map_values(|r: RecordModel| r.timestamp_type)
}

/// The column of records at an index of the source schema: key, value, topic, partition, offset,
/// timestamp, timestamp type.
pub open spec fn column_at(rows: Seq<RecordModel>, index: usize) -> ColumnModel {
    if index == 0 {
        ColumnModel::Key(keys(rows))
    } else if index == 1 {
        ColumnModel::Value(values(rows))
    } else if index == 2 {
        ColumnModel::Topic(topics(rows))
    } else if index == 3 {
        ColumnModel::Partition(partitions(rows))
    } else if index == 4 {
        ColumnModel::Offset(offsets(rows))
    } else if index == 5 {
        ColumnModel::Timestamp(timestamps(rows))
    } else {
        ColumnModel::TimestampType(timestamp_types(rows))
    }
}

/// Why collected records cannot be projected.
#[derive(Debug, Clone, Copy, PartialEq, Eq, Structural)]
pub enum ColumnError {
    /// There is no column with the index.
    OutOfRange { index: usize },
    /// The column was not collected, or is asked for twice.
    NotAllocated { index: usize },
}

fn has_index(projection: &[usize], index: usize) -> (found: bool)
    ensures
        found == projection@.contains(index),
{
    let mut i: usize = 0;
    while i < projection.len()
        invariant
            i <= projection@.len(),
            forall|j: int| 0 <= j < i ==> projection@[j] != index,
        decreases projection@.len() - i,
    {
        if projection[i] == index {
            return true;
        }
        i = i + 1;
    }
    false
}

/// Collects the projected columns of Kafka records.
pub struct KafkaColumns {
    key: Option<Vec<Option<Vec<u8>>>>,
    value: Option<Vec<Option<Vec<u8>>>>,
    topic: Option<Vec<String>>,
    partition: Option<Vec<i32>>,
    offset: Option<Vec<i64>>,
    timestamp: Option<Vec<i64>>,
    timestamp_type: Option<Vec<i32>>,
    count: usize,
    seen: Ghost<Seq<RecordModel>>,
}

fn copy_bytes(cell: Option<&[u8]>) -> (copy: Option<Vec<u8>>)
    ensures
        match cell {
            Some(b) => copy is Some && copy->0@ == b@,
            None => copy is None,
        },
{
    match cell {
        Some(b) => Some(bytes::copy(b)),
        None => None,
    }
}

/// Optional bytes as a sequence.
pub open spec fn optional_bytes(bytes: Option<&[u8]>) -> Option<Seq<u8>> {
    match bytes {
        Some(b) => Some(b@),
        None => None,
    }
}

impl KafkaColumns {
    /// The collected records.
    pub closed spec fn rows(&self) -> Seq<RecordModel> {
        self.seen@
    }

    /// Whether a column is collected.
    pub closed spec fn allocated(&self, index: usize) -> bool {
        ||| index == 0 && self.key is Some
        ||| index == 1 && self.value is Some
        ||| index == 2 && self.topic is Some
        ||| index == 3 && self.partition is Some
        ||| index == 4 && self.offset is Some
        ||| index == 5 && self.timestamp is Some
        ||| index == 6 && self.timestamp_type is Some
    }

    /// Whether each collected column holds the cells of the collected records.
    pub closed spec fn valid(&self) -> bool {
        &&& self.count == self.seen@.len()
        &&& self.key is Some ==> byte_cells(self.key->0@) == keys(self.seen@)
        &&& self.value is Some ==> byte_cells(self.value->0@) == values(self.seen@)
        &&& self.topic is Some ==> crate::text::texts(self.topic->0@) == topics(self.seen@)
        &&& self.partition is Some ==> self.partition->0@ == partitions(self.seen@)
        &&& self.offset is Some ==> self.offset->0@ == offsets(self.seen@)
        &&& self.timestamp is Some ==> self.timestamp->0@ == timestamps(self.seen@)
        &&& self.timestamp_type is Some ==> self.timestamp_type->0@ == timestamp_types(self.seen@)
    }

    /// A collection of the projected columns, without records.
    pub fn new(projection: &[usize]) -> (columns: Self)
        ensures
            columns.valid(),
            columns.rows() == Seq::<RecordModel>::empty(),
            forall|i: usize|
                columns.allocated(i) <==> i < COLUMN_COUNT && projection@.contains(i),
    {
        let columns = KafkaColumns {
            key: if has_index(projection, 0) {
                Some(Vec::new())
            } else {
                None
            },
            value: if has_index(projection, 1) {
                Some(Vec::new())
            } else {
                None
            },
            topic: if has_index(projection, 2) {
                Some(Vec::new())
            } else {
                None
            },
            partition: if has_index(projection, 3) {
                Some(Vec::new())
            } else {
                None
            },
            offset: if has_index(projection, 4) {
                Some(Vec::new())
            } else {
                None
            },
            timestamp: if has_index(projection, 5) {
                Some(Vec::new())
            } else {
                None
            },
            timestamp_type: if has_index(projection, 6) {
                Some(Vec::new())
            } else {
                None
            },
            count: 0,
            seen: Ghost(Seq::empty()),
        };
        proof {
            let rows = Seq::<RecordModel>::empty();
            assert(keys(rows) =~= Seq::<Option<Seq<u8>>>::empty());
            assert(values(rows) =~= Seq::<Option<Seq<u8>>>::empty());
            assert(topics(rows) =~= Seq::<Seq<char>>::empty());
            assert(partitions(rows) =~= Seq::<i32>::empty());
            assert(offsets(rows) =~= Seq::<i64>::empty());
            assert(timestamps(rows) =~= Seq::<i64>::empty());
            assert(timestamp_types(rows) =~= Seq::<i32>::empty());
            assert(byte_cells(Seq::empty()) =~= Seq::<Option<Seq<u8>>>::empty());
            assert(crate::text::texts(Seq::empty()) =~= Seq::<Seq<char>>::empty());
        }
        columns
    }

    /// The number of collected records.
    pub fn len(&self) -> (n: usize)
        requires
            self.valid(),
        ensures
            n == self.rows().len(),
    {
        self.count
    }

    /// Collects one record.
    pub fn append(
        &mut self,
        key: Option<&[u8]>,
        value: Option<&[u8]>,
        topic: &str,
        partition: i32,
        offset: i64,
        timestamp: i64,
        timestamp_type: i32,
    )
        requires
            old(self).valid(),
            old(self).rows().len() < usize::MAX,
        ensures
            final(self).valid(),
            final(self).rows() == old(self).rows().push(
                RecordModel {
                    key: optional_bytes(key),
                    value: optional_bytes(value),
                    topic: topic@,
                    partition,
                    offset,
                    timestamp,
                    timestamp_type,
                },
            ),
            forall|i: usize| final(self).allocated(i) == old(self).allocated(i),
    {
        let ghost before = self.seen@;
        let ghost row = RecordModel {
            key: optional_bytes(key),
            value: optional_bytes(value),
            topic: topic@,
            partition,
            offset,
            timestamp,
            timestamp_type,
        };
        let ghost after = before.push(row);
        if let Some(cells) = &mut self.key {
            let ghost prior = byte_cells(cells@);
            cells.push(copy_bytes(key));
            assert(byte_cells(cells@) =~= prior.push(row.key));
        }
        if let Some(cells) = &mut self.value {
            let ghost prior = byte_cells(cells@);
            cells.push(copy_bytes(value));
            assert(byte_cells(cells@) =~= prior.push(row.value));
        }
        if let Some(cells) = &mut self.topic {
            let ghost prior = crate::text::texts(cells@);
            cells.push(topic.to_owned());
            assert(crate::text::texts(cells@) =~= prior.push(row.topic));
        }
        if let Some(cells) = &mut self.partition {
            cells.push(partition);
        }
        if let Some(cells) = &mut self.offset {
            cells.push(offset);
        }
        if let Some(cells) = &mut self.timestamp {
            cells.push(timestamp);
        }
        if let Some(cells) = &mut self.timestamp_type {
            cells.push(timestamp_type);
        }
        self.count = self.count + 1;
        self.seen = Ghost(after);
        proof {
            assert(keys(after) =~= keys(before).push(row.key));
            assert(values(after) =~= values(before).push(row.value));
            assert(topics(after) =~= topics(before).push(row.topic));
            assert(partitions(after) =~= partitions(before).push(row.partition));
            assert(offsets(after) =~= offsets(before).push(row.offset));
            assert(timestamps(after) =~= timestamps(before).push(row.timestamp));
            assert(timestamp_types(after) =~= timestamp_types(before).push(row.timestamp_type));
        }
    }

    /// Whether the columns of a projection were collected, each asked for once.
    pub open spec fn can_project(&self, projection: Seq<usize>) -> bool {
        &&& forall|k: int| 0 <= k < projection.len() ==> (#[trigger] projection[k]) < COLUMN_COUNT
        &&& projection.no_duplicates()
        &&& forall|k: int| 0 <= k < projection.len() ==> self.allocated(#[trigger] projection[k])
    }

    /// Whether an error is the one for a projection: its first index without a column, else an
    /// index whose column was not collected or is asked for twice.
    pub open spec fn is_column_error(&self, projection: Seq<usize>, error: ColumnError) -> bool {
        match error {
            ColumnError::OutOfRange { index } => {
                &&& index >= COLUMN_COUNT
                &&& exists|k: int|
                    0 <= k < projection.len() && #[trigger] projection[k] == index && forall|
                        j: int,
                    |
                        0 <= j < k ==> projection[j] < COLUMN_COUNT
            },
            ColumnError::NotAllocated { index } => {
                &&& forall|k: int|
                    0 <= k < projection.len() ==> (#[trigger] projection[k]) < COLUMN_COUNT
                &&& exists|k: int|
                    0 <= k < projection.len() && #[trigger] projection[k] == index && (
                    !self.allocated(index) || projection.take(k).contains(index))
            },
        }
    }

    /// The collected columns in the order of the projection. Fails on an index without a column,
    /// and on one whose column was not collected or is asked for twice.
    pub fn finish_projected(self, projection: &[usize]) -> (result: Result<
        Vec<KafkaColumn>,
        ColumnError,
    >)
        requires
            self.valid(),
        ensures
            match result {
                Ok(columns) => {
                    &&& self.can_project(projection@)
                    &&& columns@.len() == projection@.len()
                    &&& forall|k: int|
                        0 <= k < projection@.len() ==> (#[trigger] columns@[k])@ == column_at(
                            self.rows(),
                            projection@[k],
                        )
                },
                Err(e) => self.is_column_error(projection@, e),
            },
    {
        let ghost rows = self.seen@;
        let ghost start = self;
        let mut i: usize = 0;
        while i < projection.len()
            invariant
                i <= projection@.len(),
                forall|k: int| 0 <= k < i ==> projection@[k] < COLUMN_COUNT,
            decreases projection@.len() - i,
        {
            if projection[i] >= COLUMN_COUNT {
                assert(projection@[i as int] >= COLUMN_COUNT);
                return Err(ColumnError::OutOfRange { index: projection[i] });
            }
            i = i + 1;
        }
        let mut left = self;
        let mut columns: Vec<KafkaColumn> = Vec::new();
        let mut n: usize = 0;
        while n < projection.len()
            invariant
                n <= projection@.len(),
                start == self,
                start.valid(),
                left.valid(),
                left.seen@ == rows,
                rows == start.seen@,
                forall|k: int| 0 <= k < projection@.len() ==> projection@[k] < COLUMN_COUNT,
                forall|x: usize|
                    left.allocated(x) <==> start.allocated(x) && !projection@.take(
                        n as int,
                    ).contains(x),
                forall|k: int| 0 <= k < n ==> start.allocated(#[trigger] projection@[k]),
                projection@.take(n as int).no_duplicates(),
                columns@.len() == n,
                forall|k: int|
                    0 <= k < n ==> (#[trigger] columns@[k])@ == column_at(rows, projection@[k]),
            decreases projection@.len() - n,
        {
            let index: usize = projection[n];
            let ghost before = left;
            let column = if index == 0 {
                match left.key.take() {
                    Some(c) => Some(KafkaColumn::Key(c)),
                    None => None,
                }
            } else if index == 1 {
                match left.value.take() {
                    Some(c) => Some(KafkaColumn::Value(c)),
                    None => None,
                }
            } else if index == 2 {
                match left.topic.take() {
                    Some(c) => Some(KafkaColumn::Topic(c)),
                    None => None,
                }
            } else if index == 3 {
                match left.partition.take() {
                    Some(c) => Some(KafkaColumn::Partition(c)),
                    None => None,
                }
            } else if index == 4 {
                match left.offset.take() {
                    Some(c) => Some(KafkaColumn::Offset(c)),
                    None => None,
                }
            } else if index == 5 {
                match left.timestamp.take() {
                    Some(c) => Some(KafkaColumn::Timestamp(c)),
                    None => None,
                }
            } else {
                match left.timestamp_type.take() {
                    Some(c) => Some(KafkaColumn::TimestampType(c)),
                    None => None,
                }
            };
            assert(column is Some == before.allocated(index));
            match column {
                Some(c) => {
                    proof {
                        let taken = projection@.take(n as int);
                        let next = projection@.take(n + 1);
                        assert(next =~= taken.push(index));
                        assert forall|x: usize|
                            next.contains(x) == (taken.contains(x) || x == index) by {
                            assert(next[n as int] == index);
                            if taken.contains(x) {
                                assert(next[taken.index_of(x)] == x);
                            }
                            if next.contains(x) && x != index {
                                assert(taken[next.index_of(x)] == x);
                            }
                        }
                        assert(!taken.contains(index));
                        assert forall|a: int, b: int|
                            0 <= a < next.len() && 0 <= b < next.len() && a != b implies next[a]
                            != next[b] by {
                            if a == n {
                                assert(taken[b] == next[b]);
                            } else if b == n {
                                assert(taken[a] == next[a]);
                            } else {
                                assert(taken[a] != taken[b]);
                            }
                        }
                        assert(c@ == column_at(rows, index));
                    }
                    columns.push(c);
                },
                None => {
                    assert(projection@[n as int] == index);
                    return Err(ColumnError::NotAllocated { index });
                },
            }
            n = n + 1;
        }
        assert(projection@.take(n as int) =~= projection@);
        Ok(columns)
    }
}

/// The columns of a table hold the fields of its records, row by row: key, value, topic, partition,
/// offset, timestamp and the type of the timestamp.
pub proof fn law_columns_hold_the_fields(rows: Seq<RecordModel>, i: int)
    requires
        0 <= i < rows.len(),
    ensures
        column_at(rows, 0) is Key && column_at(rows, 0)->Key_0.len() == rows.len() && column_at(
            rows,
            0,
        )->Key_0[i] == rows[i].key,
        column_at(rows, 1) is Value && column_at(rows, 1)->Value_0.len() == rows.len()
            && column_at(rows, 1)->Value_0[i] == rows[i].value,
        column_at(rows, 2) is Topic && column_at(rows, 2)->Topic_0.len() == rows.len()
            && column_at(rows, 2)->Topic_0[i] == rows[i].topic,
        column_at(rows, 3) is Partition && column_at(rows, 3)->Partition_0.len() == rows.len()
            && column_at(rows, 3)->Partition_0[i] == rows[i].partition,
        column_at(rows, 4) is Offset && column_at(rows, 4)->Offset_0.len() == rows.len()
            && column_at(rows, 4)->Offset_0[i] == rows[i].offset,
        column_at(rows, 5) is Timestamp && column_at(rows, 5)->Timestamp_0.len() == rows.len()
            && column_at(rows, 5)->Timestamp_0[i] == rows[i].timestamp,
        column_at(rows, 6) is TimestampType && column_at(rows, 6)->TimestampType_0.len()
            == rows.len() && column_at(rows, 6)->TimestampType_0[i] == rows[i].timestamp_type,
{
}

} // verus!
