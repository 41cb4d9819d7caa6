//! Writing the output of a task into the channels that other tasks read.

use datafusion::common::DataFusionError;
use datafusion::physical_expr::Partitioning;
use datafusion::physical_plan::repartition::BatchPartitioner;
use vstd::prelude::*;

use crate::flow::{carries_marker, is_marker_batch};
use crate::record_batch;
use crate::record_batch::{batch_columns, batch_fields, batch_rows, Batch};
use crate::text;
use crate::text::decimal;
use crate::text_cells::is_plain;

verus! {

/// A key of a hash partitioning. It may be a column that is not known after projection.
#[derive(Debug, Clone, Copy, PartialEq, Eq, Structural)]
pub struct ShuffleKey {
    pub id: u64,
    pub unknown_column: bool,
}

/// How rows are spread over channels.
#[derive(Debug)]
pub enum ShufflePartitioning {
    RoundRobinBatch(usize),
    Hash { keys: Vec<ShuffleKey>, channels: usize },
    UnknownPartitioning(usize),
}

/// How rows are spread over channels.
#[verifier::ext_equal]
pub enum PartitioningModel {
    RoundRobinBatch(usize),
    Hash { keys: Seq<ShuffleKey>, channels: usize },
    UnknownPartitioning(usize),
}

impl PartitioningModel {
    /// The number of channels.
    pub open spec fn channel_count(self) -> usize {
        match self {
            PartitioningModel::RoundRobinBatch(n) => n,
            PartitioningModel::Hash { keys: _, channels } => channels,
            PartitioningModel::UnknownPartitioning(n) => n,
        }
    }
}

impl View for ShufflePartitioning {
    type V = PartitioningModel;

    open spec fn view(&self) -> PartitioningModel {
        match self {
            ShufflePartitioning::RoundRobinBatch(n) => PartitioningModel::RoundRobinBatch(*n),
            ShufflePartitioning::Hash { keys, channels } => PartitioningModel::Hash {
                keys: keys@,
                channels: *channels,
            },
            ShufflePartitioning::UnknownPartitioning(n) => PartitioningModel::UnknownPartitioning(
                *n,
            ),
        }
    }
}

/// The keys that are known.
pub open spec fn known_keys(keys: Seq<ShuffleKey>) -> Seq<ShuffleKey>
    decreases keys.len(),
{
    if keys.len() == 0 {
        Seq::empty()
    } else {
        let before = known_keys(keys.drop_last());
        if keys.last().unknown_column {
            before
        } else {
            before.push(keys.last())
        }
    }
}

/// The partitioning of a shuffle: without keys there is no hash, and columns that are not known
/// are no keys.
pub open spec fn normalized(partitioning: PartitioningModel) -> PartitioningModel {
    match partitioning {
        PartitioningModel::Hash { keys, channels } => if keys.len() == 0 {
            PartitioningModel::UnknownPartitioning(channels)
        } else {
            PartitioningModel::Hash { keys: known_keys(keys), channels }
        },
        other => other,
    }
}

/// Why a shuffle cannot be written.
#[derive(Debug, Clone, Copy, PartialEq, Eq, Structural)]
pub enum ShuffleError {
    MissingLocations { partition: usize },
    ChannelMismatch { channels: usize, locations: usize },
    ChildCount,
}

impl ShuffleError {
    /// The message for the user.
    pub open spec fn text(self) -> Seq<char> {
        match self {
            ShuffleError::MissingLocations { partition } => "write locations for partition "@
                + decimal(partition as nat) + " not found"@,
            ShuffleError::ChannelMismatch { channels, locations } =>
                "partition count mismatch: shuffle partitioning has "@ + decimal(channels as nat)
                + " partitions, but "@ + decimal(locations as nat) + " locations were provided"@,
            ShuffleError::ChildCount => "ShuffleWriteExec should have one child"@,
        }
    }

    /// The message for the user.
    pub fn message(&self) -> (out: String)
        ensures
            out@ == self.text(),
    {
        match self {
            ShuffleError::MissingLocations { partition } => {
                let mut out = "write locations for partition ".to_owned();
                text::push_decimal(&mut out, *partition as u64);
                out.append(" not found");
                out
            },
            ShuffleError::ChannelMismatch { channels, locations } => {
                let mut out = "partition count mismatch: shuffle partitioning has ".to_owned();
                text::push_decimal(&mut out, *channels as u64);
                out.append(" partitions, but ");
                text::push_decimal(&mut out, *locations as u64);
                out.append(" locations were provided");
                out
            },
            ShuffleError::ChildCount => "ShuffleWriteExec should have one child".to_owned(),
        }
    }
}

/// Writes each partition of a plan into the channels of its locations.
#[derive(Debug)]
pub struct ShuffleWriteExec {
    shuffle_partitioning: ShufflePartitioning,
    /// For each partition of the plan, the number of locations to write to.
    locations: Vec<usize>,
}

impl ShuffleWriteExec {
    /// The partitioning of the shuffle.
    pub closed spec fn partitioning(&self) -> PartitioningModel {
        self.shuffle_partitioning@
    }

    /// The number of locations of each partition.
    pub closed spec fn location_counts(&self) -> Seq<usize> {
        self.locations@
    }

    /// A shuffle with a number of locations for each partition of its plan.
    pub fn new(locations: Vec<usize>, partitioning: ShufflePartitioning) -> (exec: Self)
        ensures
            exec.partitioning() == normalized(partitioning@),
            exec.location_counts() == locations@,
    {
        let shuffle_partitioning = match partitioning {
            ShufflePartitioning::Hash { keys, channels } => {
                if keys.len() == 0 {
                    ShufflePartitioning::UnknownPartitioning(channels)
                } else {
                    let mut known: Vec<ShuffleKey> = Vec::new();
                    let mut i: usize = 0;
                    assert(keys@.take(0) =~= Seq::<ShuffleKey>::empty());
                    while i < keys.len()
                        invariant
                            i <= keys@.len(),
                            known@ == known_keys(keys@.take(i as int)),
                        decreases keys@.len() - i,
                    {
                        assert(keys@.take(i + 1).drop_last() =~= keys@.take(i as int));
                        assert(keys@.take(i + 1).last() == keys@[i as int]);
                        if !keys[i].unknown_column {
                            known.push(keys[i]);
                        }
                        i = i + 1;
                    }
                    assert(keys@.take(i as int) =~= keys@);
                    ShufflePartitioning::Hash { keys: known, channels }
                }
            },
            other => other,
        };
        ShuffleWriteExec { shuffle_partitioning, locations }
    }

    /// The error of writing a partition.
    pub open spec fn partition_error(&self, partition: usize) -> Option<ShuffleError> {
        if partition >= self.location_counts().len() {
            Some(ShuffleError::MissingLocations { partition })
        } else if self.partitioning().channel_count()
            != self.location_counts()[partition as int] {
            Some(
                ShuffleError::ChannelMismatch {
                    channels: self.partitioning().channel_count(),
                    locations: self.location_counts()[partition as int],
                },
            )
        } else {
            None
        }
    }

    /// Checks that a partition can be written. The partitioning that its rows are spread by is one
    /// that goes round where none is known.
    pub fn plan_partition(&self, partition: usize) -> (result: Result<
        ShufflePartitioning,
        ShuffleError,
    >)
        ensures
            match result {
                Ok(spread) => {
                    &&& self.partition_error(partition) is None
                    &&& spread@ == match self.partitioning() {
                        PartitioningModel::UnknownPartitioning(n) =>
                            PartitioningModel::RoundRobinBatch(n),
                        other => other,
                    }
                },
                Err(e) => self.partition_error(partition) == Some(e),
            },
    {
        if partition >= self.locations.len() {
            return Err(ShuffleError::MissingLocations { partition });
        }
        let channels: usize = match &self.shuffle_partitioning {
            ShufflePartitioning::RoundRobinBatch(n) => *n,
            ShufflePartitioning::Hash { keys: _, channels } => *channels,
            ShufflePartitioning::UnknownPartitioning(n) => *n,
        };
        let locations: usize = self.locations[partition];
        if channels != locations {
            return Err(ShuffleError::ChannelMismatch { channels, locations });
        }
        match &self.shuffle_partitioning {
            ShufflePartitioning::RoundRobinBatch(n) => Ok(ShufflePartitioning::RoundRobinBatch(*n)),
            ShufflePartitioning::UnknownPartitioning(n) => Ok(
                ShufflePartitioning::RoundRobinBatch(*n),
            ),
            ShufflePartitioning::Hash { keys, channels } => {
                let mut copy: Vec<ShuffleKey> = Vec::new();
                let mut i: usize = 0;
                while i < keys.len()
                    invariant
                        i <= keys@.len(),
                        copy@ == keys@.take(i as int),
                    decreases keys@.len() - i,
                {
                    copy.push(keys[i]);
                    assert(keys@.take(i + 1) =~= keys@.take(i as int).push(keys@[i as int]));
                    i = i + 1;
                }
                assert(keys@.take(i as int) =~= keys@);
                Ok(ShufflePartitioning::Hash { keys: copy, channels: *channels })
            },
        }
    }

    /// The shuffle over another plan.
    pub fn with_new_children(self, children: usize) -> (result: Result<Self, ShuffleError>)
        ensures
            result == if children == 1 {
                Ok::<Self, ShuffleError>(self)
            } else {
                Err::<Self, ShuffleError>(ShuffleError::ChildCount)
            },
    {
        if children == 1 {
            Ok(self)
        } else {
            Err(ShuffleError::ChildCount)
        }
    }
}

/// What became of a write.
#[derive(Debug, Clone, Copy, PartialEq, Eq, Structural)]
pub enum WriteOutcome {
    Written,
    /// The reader is gone: nothing more is written there.
    Closed,
}

/// The channels that a task writes, and which of them are still read.
#[derive(Debug)]
pub struct ShuffleSinks {
    open: Vec<bool>,
}

impl View for ShuffleSinks {
    type V = Seq<bool>;

    closed spec fn view(&self) -> Seq<bool> {
        self.open@
    }
}

/// Whether a channel gets a part of a batch: a marker goes to every channel that is read, rows to
/// those channels that they are spread to.
pub open spec fn is_target(open: Seq<bool>, marker: bool, pieces: Seq<bool>, channel: int) -> bool {
    open[channel] && (marker || pieces[channel])
}

/// The channels that get a part of a batch, in order.
pub open spec fn targets_of(open: Seq<bool>, marker: bool, pieces: Seq<bool>, n: nat) -> Seq<usize>
    decreases n,
{
    if n == 0 {
        Seq::empty()
    } else {
        let before = targets_of(open, marker, pieces, (n - 1) as nat);
        if is_target(open, marker, pieces, n - 1) {
            before.push((n - 1) as usize)
        } else {
            before
        }
    }
}

/// Whether some channel is read.
pub open spec fn any_open(open: Seq<bool>) -> bool {
    exists|i: int| 0 <= i < open.len() && #[trigger] open[i]
}

impl ShuffleSinks {
    /// The channels, all of which are read.
    pub fn new(channels: usize) -> (sinks: Self)
        ensures
            sinks@.len() == channels,
            forall|i: int| 0 <= i < channels ==> #[trigger] sinks@[i],
    {
        let mut open: Vec<bool> = Vec::new();
        while open.len() < channels
            invariant
                open@.len() <= channels,
                forall|i: int| 0 <= i < open@.len() ==> #[trigger] open@[i],
            decreases channels - open@.len(),
        {
            open.push(true);
        }
        ShuffleSinks { open }
    }

    /// The channels that get a part of a batch: a marker batch goes to all that are read, and the
    /// pieces of other batches go to their own.
    pub fn targets(&self, marker: bool, pieces: &[bool]) -> (channels: Vec<usize>)
        requires
            pieces@.len() == self@.len(),
        ensures
            channels@ == targets_of(self@, marker, pieces@, self@.len()),
    {
        let mut channels: Vec<usize> = Vec::new();
        let mut i: usize = 0;
        while i < self.open.len()
            invariant
                i <= self.open@.len(),
                pieces@.len() == self.open@.len(),
                channels@ == targets_of(self.open@, marker, pieces@, i as nat),
            decreases self.open@.len() - i,
        {
            if self.open[i] && (marker || pieces[i]) {
                channels.push(i);
            }
            i = i + 1;
        }
        channels
    }

    /// Records what became of a write.
    pub fn wrote(&mut self, channel: usize, outcome: WriteOutcome)
        requires
            channel < old(self)@.len(),
        ensures
            final(self)@ == match outcome {
                WriteOutcome::Written => old(self)@,
                WriteOutcome::Closed => old(self)@.update(channel as int, false),
            },
    {
        match outcome {
            WriteOutcome::Written => {},
            WriteOutcome::Closed => {
                self.open[channel] = false;
            },
        }
    }

    /// Whether another batch is to be read: some channel still is.
    pub fn active(&self) -> (active: bool)
        ensures
            active == any_open(self@),
    {
        let mut i: usize = 0;
        while i < self.open.len()
            invariant
                i <= self.open@.len(),
                forall|k: int| 0 <= k < i ==> !(#[trigger] self.open@[k]),
            decreases self.open@.len() - i,
        {
            if self.open[i] {
                assert(self@[i as int]);
                return true;
            }
            i = i + 1;
        }
        false
    }

    /// The channels to close in the end: those that are still read.
    pub fn remaining(&self) -> (channels: Vec<usize>)
        ensures
            channels@ == targets_of(self@, true, self@, self@.len()),
    {
        self.targets(true, self.open.as_slice())
    }
}

proof fn lemma_targets(open: Seq<bool>, marker: bool, pieces: Seq<bool>, n: nat)
    requires
        n <= open.len() <= usize::MAX,
        pieces.len() == open.len(),
    ensures
        ({
            let t = targets_of(open, marker, pieces, n);
            &&& forall|i: int|
                0 <= i < t.len() ==> (#[trigger] t[i]) < n && is_target(
                    open,
                    marker,
                    pieces,
                    t[i] as int,
                )
            &&& forall|c: int|
                0 <= c < n && is_target(open, marker, pieces, c) ==> #[trigger] t.contains(
                    c as usize,
                )
            &&& t.no_duplicates()
        }),
    decreases n,
{
    if n > 0 {
        lemma_targets(open, marker, pieces, (n - 1) as nat);
        let before = targets_of(open, marker, pieces, (n - 1) as nat);
        let t = targets_of(open, marker, pieces, n);
        assert forall|c: int|
            0 <= c < n && is_target(open, marker, pieces, c) implies #[trigger] t.contains(
            c as usize,
        ) by {
            if c < n - 1 {
                assert(before.contains(c as usize));
                let i = before.index_of(c as usize);
                assert(t[i] == c);
            } else {
                assert(t[t.len() - 1] == c);
            }
        }
        assert forall|i: int| 0 <= i < t.len() implies (#[trigger] t[i]) < n && is_target(
            open,
            marker,
            pieces,
            t[i] as int,
        ) by {
            if i < before.len() {
                assert(t[i] == before[i]);
            }
        }
    }
}

/// A marker reaches every channel that is read, once, and no other.
pub proof fn law_markers_reach_every_channel(open: Seq<bool>, pieces: Seq<bool>, channel: usize)
    requires
        open.len() <= usize::MAX,
        pieces.len() == open.len(),
        channel < open.len(),
    ensures
        targets_of(open, true, pieces, open.len()).contains(channel) <==> open[channel as int],
        targets_of(open, true, pieces, open.len()).no_duplicates(),
{
    lemma_targets(open, true, pieces, open.len());
    let t = targets_of(open, true, pieces, open.len());
    if t.contains(channel) {
        let i = t.index_of(channel);
        assert(is_target(open, true, pieces, t[i] as int));
    }
    if open[channel as int] {
        assert(is_target(open, true, pieces, channel as int));
        assert(t.contains((channel as int) as usize));
    }
}

/// The rows of a batch that are spread to a channel reach it once while it is read, and no other
/// channel gets them.
pub proof fn law_rows_reach_their_channel(open: Seq<bool>, pieces: Seq<bool>, channel: usize)
    requires
        open.len() <= usize::MAX,
        pieces.len() == open.len(),
        channel < open.len(),
    ensures
        targets_of(open, false, pieces, open.len()).contains(channel) <==> open[channel as int]
            && pieces[channel as int],
        targets_of(open, false, pieces, open.len()).no_duplicates(),
{
    lemma_targets(open, false, pieces, open.len());
    let t = targets_of(open, false, pieces, open.len());
    if t.contains(channel) {
        let i = t.index_of(channel);
        assert(is_target(open, false, pieces, t[i] as int));
    }
    if open[channel as int] && pieces[channel as int] {
        assert(is_target(open, false, pieces, channel as int));
        assert(t.contains((channel as int) as usize));
    }
}

/// What spreads the rows of batches over channels.
#[verifier::external_type_specification]
#[verifier::external_body]
pub struct ExBatchPartitioner(datafusion::physical_plan::repartition::BatchPartitioner);

/// How rows are spread over channels, with the expressions that are hashed.
#[verifier::external_type_specification]
#[verifier::external_body]
pub struct ExPartitioning(datafusion::physical_expr::Partitioning);

/// What ends the work on a plan.
#[verifier::external_type_specification]
#[verifier::external_body]
pub struct ExDataFusionError(datafusion::common::DataFusionError);

/// The number of channels of a partitioner.
pub uninterp spec fn partitioner_channels(partitioner: BatchPartitioner) -> nat;

/// The number of channels of a partitioning.
pub uninterp spec fn partitioning_channels(partitioning: Partitioning) -> nat;

/// Whether a partitioning says where rows go: by a hash, by ranges or in turn.
pub uninterp spec fn spreads_rows(partitioning: Partitioning) -> bool;

/// How a partitioner chooses the channel of a row.
pub enum Way {
    /// All rows of a batch go to the next channel.
    InTurn { next: nat },
    /// By a hash of the cells in some columns.
    ByColumns { columns: Seq<nat> },
    /// By a hash of other expressions, or by ranges.
    Other,
}

/// How a partitioner chooses the channel of a row.
pub uninterp spec fn partitioner_way(partitioner: BatchPartitioner) -> Way;

/// How a partitioner for a partitioning chooses the channel of a row, where the first batch goes to
/// the first channel if batches go to channels in turn.
pub uninterp spec fn partitioning_way(partitioning: Partitioning) -> Way;

/// Whether a partitioner is one for an input of some inputs, under a partitioning.
pub uninterp spec fn made_for(
    partitioner: BatchPartitioner,
    partitioning: Partitioning,
    input: nat,
    inputs: nat,
) -> bool;

/// Whether a partitioner may choose these channels for the rows of a batch: more than one choice is
/// open to it only where its expressions give different values on the same row.
pub uninterp spec fn may_choose(
    partitioner: BatchPartitioner,
    batch: Batch,
    channels: Seq<int>,
) -> bool;

/// Whether a partitioner may fail on a batch.
pub uninterp spec fn may_fail(partitioner: BatchPartitioner, batch: Batch) -> bool;

/// The channel that a partitioner which hashes columns chooses for a row, by the types of these
/// columns and the cells of the row in them.
pub uninterp spec fn key_channel(
    partitioner: BatchPartitioner,
    key: Seq<(Seq<char>, Option<Seq<char>>)>,
) -> int;

/// The way of a new partitioner: where batches go to channels in turn, the first channel is by the
/// position of the input among the inputs.
pub open spec fn first_way(way: Way, channels: nat, input: nat, inputs: nat) -> Way {
    match way {
        Way::InTurn { .. } => Way::InTurn { next: (input * channels) / inputs },
        other => other,
    }
}

/// The way after a batch.
pub open spec fn next_way(way: Way, channels: nat) -> Way {
    match way {
        Way::InTurn { next } => Way::InTurn { next: (next + 1) % channels },
        other => other,
    }
}

/// The types and the cells of a row in some columns.
pub open spec fn key_of(batch: Batch, columns: Seq<nat>, row: int) -> Seq<
    (Seq<char>, Option<Seq<char>>),
> {
    columns.map_values(
        |c: nat| (batch_fields(batch)[c as int].1, batch_columns(batch)[c as int][row]),
    )
}

/// Whether a batch has columns of texts or whole numbers at all the positions.
pub open spec fn has_keys(batch: Batch, columns: Seq<nat>) -> bool {
    forall|k: int|
        0 <= k < columns.len() ==> (#[trigger] columns[k]) < batch_fields(batch).len() && is_plain(
            batch_fields(batch)[columns[k] as int].1,
        )
}

/// Whether channels are those that a way determines: the next one for all rows, or for each row that
/// of its key.
pub open spec fn follows_way(
    partitioner: BatchPartitioner,
    batch: Batch,
    channels: Seq<int>,
) -> bool {
    match partitioner_way(partitioner) {
        Way::InTurn { next } => forall|r: int|
            0 <= r < channels.len() ==> #[trigger] channels[r] == next,
        Way::ByColumns { columns } => has_keys(batch, columns) ==> forall|r: int|
            0 <= r < channels.len() ==> #[trigger] channels[r] == key_channel(
                partitioner,
                key_of(batch, columns, r),
            ),
        Way::Other => true,
    }
}

/// Whether cells of a type in words are texts, byte strings, whole numbers or truth values.
pub open spec fn is_simple(words: Seq<char>) -> bool {
    is_plain(words) || words == "Binary"@ || words == "LargeBinary"@ || words == "Boolean"@
}

/// Whether a partitioner cannot fail on a batch: it goes in turn, or it hashes columns of texts or
/// whole numbers, and all columns are simple, with nulls only where these may be.
pub open spec fn surely_spread(partitioner: BatchPartitioner, batch: Batch) -> bool {
    match partitioner_way(partitioner) {
        Way::InTurn { .. } => true,
        Way::ByColumns { columns } => has_keys(batch, columns) && forall|i: int|
            0 <= i < batch_fields(batch).len() ==> is_simple((#[trigger] batch_fields(batch)[i]).1)
                && (batch_fields(batch)[i].2 || !batch_columns(batch)[i].contains(None)),
        Way::Other => false,
    }
}

/// `Partitioning::partition_count`.
#[verifier::external_body]
fn channel_count(partitioning: &Partitioning) -> (n: usize)
    ensures
        n == partitioning_channels(*partitioning),
{
    partitioning.partition_count()
}

/// `BatchPartitioner::try_new`, with a timer that nothing reads: it fails where the partitioning
/// does not say where rows go. One that goes round starts at a channel by the position of the input
/// among the inputs, which is a channel where the input is one of them.
#[verifier::external_body]
fn new_partitioner(partitioning: Partitioning, input: usize, inputs: usize) -> (result: Result<
    BatchPartitioner,
    DataFusionError,
>)
    requires
        input < inputs,
        partitioning_channels(partitioning) > 0,
        input * partitioning_channels(partitioning) <= usize::MAX,
    ensures
        match result {
            Ok(partitioner) => {
                &&& spreads_rows(partitioning)
                &&& partitioner_channels(partitioner) == partitioning_channels(partitioning)
                &&& made_for(partitioner, partitioning, input as nat, inputs as nat)
                &&& partitioner_way(partitioner) == first_way(
                    partitioning_way(partitioning),
                    partitioning_channels(partitioning),
                    input as nat,
                    inputs as nat,
                )
            },
            Err(_) => !spreads_rows(partitioning),
        },
{
    BatchPartitioner::try_new(partitioning, Default::default(), input, inputs)
}

/// The rows that go to a channel, in order, where each row goes to one.
pub open spec fn rows_in(channels: Seq<int>, channel: int) -> Seq<int>
    decreases channels.len(),
{
    if channels.len() == 0 {
        Seq::empty()
    } else {
        let before = rows_in(channels.drop_last(), channel);
        if channels.last() == channel {
            before.push(channels.len() - 1)
        } else {
            before
        }
    }
}

/// Whether a batch holds some rows of another, in order, with all its columns.
pub open spec fn is_part(part: Batch, batch: Batch, rows: Seq<int>) -> bool {
    &&& batch_rows(part) == rows.len()
    &&& batch_fields(part) == batch_fields(batch)
    &&& batch_columns(part) == batch_columns(batch).map_values(
        |cells: Seq<Option<Seq<char>>>| rows.map_values(|r: int| cells[r]),
    )
}

/// Whether each row of a batch has one of `count` channels.
pub open spec fn are_channels(batch: Batch, count: nat, channels: Seq<int>) -> bool {
    &&& channels.len() == batch_rows(batch)
    &&& forall|r: int| 0 <= r < channels.len() ==> 0 <= #[trigger] channels[r] < count
}

/// Whether pieces for channels, in their order, hold the rows of a batch, each in the piece of its
/// own channel.
pub open spec fn is_spread(
    batch: Batch,
    count: nat,
    pieces: Seq<(usize, Batch)>,
    channels: Seq<int>,
) -> bool {
    &&& are_channels(batch, count, channels)
    &&& forall|k: int|
        0 <= k < pieces.len() ==> (#[trigger] pieces[k]).0 < count && is_part(
            pieces[k].1,
            batch,
            rows_in(channels, pieces[k].0 as int),
        )
    &&& forall|j: int, k: int|
        0 <= j < k < pieces.len() ==> (#[trigger] pieces[j]).0 < (#[trigger] pieces[k]).0
    &&& forall|r: int|
        0 <= r < channels.len() ==> exists|k: int|
            0 <= k < pieces.len() && (#[trigger] pieces[k]).0 == #[trigger] channels[r]
}

/// Whether a partitioner is another after one more batch: it goes in turn, or chooses by keys, as
/// before.
pub open spec fn is_after(after: BatchPartitioner, before: BatchPartitioner) -> bool {
    &&& partitioner_channels(after) == partitioner_channels(before)
    &&& partitioner_way(after) == next_way(partitioner_way(before), partitioner_channels(before))
    &&& forall|key: Seq<(Seq<char>, Option<Seq<char>>)>| #[trigger]
        key_channel(after, key) == key_channel(before, key)
    &&& forall|partitioning: Partitioning, input: nat, inputs: nat| #[trigger]
        made_for(before, partitioning, input, inputs) ==> made_for(
            after,
            partitioning,
            input,
            inputs,
        )
}

/// `BatchPartitioner::partition_iter`, with all that it yields: for channels, in their order, the
/// rows that go there, each row to the channel that the partitioner chose. Where batches go in turn,
/// that is the next channel; where columns of texts or whole numbers are hashed, it depends on the
/// cells of the row in these alone. It fails where its expressions do, or rows of a type cannot be
/// taken. It would lose rows that a 32-bit number does not count.
#[verifier::external_body]
fn partition_batch(partitioner: &mut BatchPartitioner, batch: Batch) -> (result: Result<
    Vec<(usize, Batch)>,
    DataFusionError,
>)
    requires
        batch_rows(batch) <= u32::MAX,
        partitioner_channels(*old(partitioner)) > 0,
    ensures
        is_after(*final(partitioner), *old(partitioner)),
        forall|key: Seq<(Seq<char>, Option<Seq<char>>)>| #[trigger]
            key_channel(*final(partitioner), key) == key_channel(*old(partitioner), key),
        match result {
            Ok(pieces) => exists|channels: Seq<int>| #[trigger]
                may_choose(*old(partitioner), batch, channels) && is_spread(
                    batch,
                    partitioner_channels(*old(partitioner)),
                    pieces@,
                    channels,
                ) && follows_way(*old(partitioner), batch, channels),
            Err(_) => may_fail(*old(partitioner), batch) && !surely_spread(
                *old(partitioner),
                batch,
            ),
        },
{
    let pieces = partitioner.partition_iter(batch.columns)?;
    pieces.map(|piece| piece.map(|(channel, columns)| (channel, Batch { columns }))).collect()
}

/// Why there is no partitioner.
#[derive(Debug)]
pub enum PartitionerError {
    /// There are no channels, or more than can be counted over all inputs.
    ChannelCount,
    /// The partitioning does not say where rows go.
    Unsupported(DataFusionError),
}

/// A partitioner for the rows of one of some inputs.
pub fn open_partitioner(partitioning: Partitioning, input: usize, inputs: usize) -> (result: Result<
    BatchPartitioner,
    PartitionerError,
>)
    requires
        input < inputs,
    ensures
        ({
            let n = partitioning_channels(partitioning);
            match result {
                Ok(partitioner) => {
                    &&& 0 < n && input * n <= usize::MAX && spreads_rows(partitioning)
                    &&& partitioner_channels(partitioner) == n
                    &&& made_for(partitioner, partitioning, input as nat, inputs as nat)
                    &&& partitioner_way(partitioner) == first_way(
                        partitioning_way(partitioning),
                        n,
                        input as nat,
                        inputs as nat,
                    )
                },
                Err(PartitionerError::ChannelCount) => n == 0 || input * n > usize::MAX,
                Err(PartitionerError::Unsupported(_)) => {
                    &&& 0 < n && input * n <= usize::MAX
                    &&& !spreads_rows(partitioning)
                },
            }
        }),
{
    let channels = channel_count(&partitioning);
    if channels == 0 || input.checked_mul(channels).is_none() {
        return Err(PartitionerError::ChannelCount);
    }
    match new_partitioner(partitioning, input, inputs) {
        Ok(partitioner) => Ok(partitioner),
        Err(e) => Err(PartitionerError::Unsupported(e)),
    }
}

/// Why a batch is not written.
#[derive(Debug)]
pub enum RouteError {
    /// A batch with more rows than a partitioner counts.
    TooManyRows,
    /// The partitioner failed.
    Failed(DataFusionError),
}

/// Whether writes to channels that are read, in the order of these, hold the rows of a batch: each
/// row goes to its own channel, where that is read.
pub open spec fn is_routed(
    batch: Batch,
    open: Seq<bool>,
    writes: Seq<(usize, Batch)>,
    channels: Seq<int>,
) -> bool {
    &&& are_channels(batch, open.len(), channels)
    &&& forall|k: int|
        0 <= k < writes.len() ==> {
            &&& (#[trigger] writes[k]).0 < open.len() && open[writes[k].0 as int]
            &&& is_part(writes[k].1, batch, rows_in(channels, writes[k].0 as int))
        }
    &&& forall|j: int, k: int|
        0 <= j < k < writes.len() ==> (#[trigger] writes[j]).0 < (#[trigger] writes[k]).0
    &&& forall|r: int|
        0 <= r < channels.len() && open[channels[r]] ==> exists|k: int|
            0 <= k < writes.len() && (#[trigger] writes[k]).0 == #[trigger] channels[r]
}

/// Whether writes to channels that are read hold the rows of a batch, each row in the write to the
/// channel that the partitioner chose.
pub open spec fn has_route(
    partitioner: BatchPartitioner,
    batch: Batch,
    open: Seq<bool>,
    writes: Seq<(usize, Batch)>,
) -> bool {
    exists|channels: Seq<int>| #[trigger]
        is_routed(batch, open, writes, channels) && may_choose(partitioner, batch, channels)
            && follows_way(partitioner, batch, channels)
}

/// Whether writes hold a batch as a whole for every channel that is read, in the order of these.
pub open spec fn is_broadcast(batch: Batch, open: Seq<bool>, writes: Seq<(usize, Batch)>) -> bool {
    writes == targets_of(open, true, open, open.len()).map_values(|c: usize| (c, batch))
}

/// The pieces for channels that are read, in their order.
pub fn open_pieces(sinks: &ShuffleSinks, pieces: Vec<(usize, Batch)>) -> (writes: Vec<
    (usize, Batch),
>)
    requires
        forall|k: int| 0 <= k < pieces@.len() ==> (#[trigger] pieces@[k]).0 < sinks@.len(),
    ensures
        writes@ == pieces@.filter(|p: (usize, Batch)| sinks@[p.0 as int]),
{
    let ghost all = pieces@;
    let ghost is_open = |p: (usize, Batch)| sinks@[p.0 as int];
    let mut pieces = pieces;
    let mut writes: Vec<(usize, Batch)> = Vec::new();
    let ghost mut i: int = 0;
    proof {
        reveal(Seq::filter);
        assert(all.skip(0) =~= all);
        assert(all.take(0) =~= Seq::<(usize, Batch)>::empty());
        assert(all.take(0).filter(is_open) =~= Seq::<(usize, Batch)>::empty());
    }
    while pieces.len() > 0
        invariant
            is_open == (|p: (usize, Batch)| sinks@[p.0 as int]),
            0 <= i <= all.len(),
            forall|k: int| 0 <= k < all.len() ==> (#[trigger] all[k]).0 < sinks@.len(),
            pieces@ == all.skip(i),
            writes@ == all.take(i).filter(is_open),
        decreases pieces@.len(),
    {
        let (channel, piece) = pieces.remove(0);
        proof {
            reveal(Seq::filter);
            assert(all.skip(i)[0] == all[i]);
            assert(all.skip(i).remove(0) =~= all.skip(i + 1));
            assert(all.take(i + 1).drop_last() =~= all.take(i));
            assert(all.take(i + 1).last() == all[i]);
        }
        if sinks.open[channel] {
            writes.push((channel, piece));
        }
        proof {
            i = i + 1;
        }
    }
    assert(all.take(i) =~= all);
    writes
}

proof fn lemma_open_pieces(pieces: Seq<(usize, Batch)>, open: Seq<bool>)
    requires
        forall|j: int, k: int|
            0 <= j < k < pieces.len() ==> (#[trigger] pieces[j]).0 < (#[trigger] pieces[k]).0,
    ensures
        ({
            let writes = pieces.filter(|p: (usize, Batch)| open[p.0 as int]);
            &&& forall|k: int|
                0 <= k < writes.len() ==> pieces.contains(#[trigger] writes[k])
                    && open[writes[k].0 as int]
            &&& forall|j: int|
                0 <= j < pieces.len() && open[(#[trigger] pieces[j]).0 as int] ==> writes.contains(
                    pieces[j],
                )
            &&& forall|j: int, k: int|
                0 <= j < k < writes.len() ==> (#[trigger] writes[j]).0 < (#[trigger] writes[k]).0
        }),
    decreases pieces.len(),
{
    reveal(Seq::filter);
    let is_open = |p: (usize, Batch)| open[p.0 as int];
    let writes = pieces.filter(is_open);
    if pieces.len() > 0 {
        let rest = pieces.drop_last();
        let before = rest.filter(is_open);
        lemma_open_pieces(rest, open);
        assert forall|k: int| 0 <= k < writes.len() implies pieces.contains(#[trigger] writes[k])
            && open[writes[k].0 as int] by {
            if k < before.len() {
                assert(writes[k] == before[k]);
                let j = rest.index_of(before[k]);
                assert(pieces[j] == writes[k]);
            } else {
                assert(pieces[pieces.len() - 1] == writes[k]);
            }
        }
        assert forall|j: int|
            0 <= j < pieces.len() && open[(#[trigger] pieces[j]).0 as int] implies writes.contains(
            pieces[j],
        ) by {
            if j < rest.len() {
                assert(rest[j] == pieces[j]);
                let k = before.index_of(rest[j]);
                assert(writes[k] == pieces[j]);
            } else {
                assert(writes[writes.len() - 1] == pieces[j]);
            }
        }
        assert forall|j: int, k: int| 0 <= j < k < writes.len() implies (#[trigger] writes[j]).0 < (
        #[trigger] writes[k]).0 by {
            assert(writes[j] == before[j]);
            if k < before.len() {
                assert(writes[k] == before[k]);
            } else {
                assert(writes[k] == pieces.last());
                let i = rest.index_of(before[j]);
                assert(pieces[i] == rest[i]);
                assert(pieces[pieces.len() - 1] == pieces.last());
            }
        }
    }
}

proof fn lemma_routed(
    batch: Batch,
    open: Seq<bool>,
    pieces: Seq<(usize, Batch)>,
    channels: Seq<int>,
)
    requires
        is_spread(batch, open.len(), pieces, channels),
    ensures
        is_routed(
            batch,
            open,
            pieces.filter(|p: (usize, Batch)| open[p.0 as int]),
            channels,
        ),
{
    let writes = pieces.filter(|p: (usize, Batch)| open[p.0 as int]);
    lemma_open_pieces(pieces, open);
    assert forall|k: int| 0 <= k < writes.len() implies {
        &&& (#[trigger] writes[k]).0 < open.len() && open[writes[k].0 as int]
        &&& is_part(writes[k].1, batch, rows_in(channels, writes[k].0 as int))
    } by {
        let j = pieces.index_of(writes[k]);
        assert(pieces[j] == writes[k]);
    }
    assert forall|r: int| 0 <= r < channels.len() && open[channels[r]] implies exists|k: int|
        0 <= k < writes.len() && (#[trigger] writes[k]).0 == #[trigger] channels[r] by {
        let j = choose|j: int| 0 <= j < pieces.len() && (#[trigger] pieces[j]).0 == channels[r];
        assert(open[pieces[j].0 as int]);
        let k = writes.index_of(pieces[j]);
        assert(writes[k].0 == channels[r]);
    }
}

/// The writes of a batch to the channels that are read: a batch that carries a marker goes to all of
/// them, the rows of another each to the channel that the partitioner chooses.
pub fn route(sinks: &ShuffleSinks, partitioner: &mut BatchPartitioner, batch: Batch) -> (result:
    Result<Vec<(usize, Batch)>, RouteError>)
    requires
        partitioner_channels(*old(partitioner)) == sinks@.len() > 0,
    ensures
        ({
            let marker = carries_marker(batch_fields(batch), batch_columns(batch));
            let asked = !marker && batch_rows(batch) <= u32::MAX;
            &&& if asked {
                is_after(*final(partitioner), *old(partitioner))
            } else {
                *final(partitioner) == *old(partitioner)
            }
            &&& match result {
                Ok(writes) => if marker {
                    is_broadcast(batch, sinks@, writes@)
                } else {
                    &&& batch_rows(batch) <= u32::MAX
                    &&& has_route(*old(partitioner), batch, sinks@, writes@)
                },
                Err(RouteError::TooManyRows) => !marker && batch_rows(batch) > u32::MAX,
                Err(RouteError::Failed(_)) => {
                    &&& asked
                    &&& may_fail(*old(partitioner), batch)
                    &&& !surely_spread(*old(partitioner), batch)
                },
            }
        }),
{
    if is_marker_batch(&batch) {
        return Ok(broadcast(sinks, &batch));
    }
    if record_batch::row_count(&batch) > 0xffff_ffff {
        return Err(RouteError::TooManyRows);
    }
    let pieces = match partition_batch(partitioner, batch) {
        Ok(pieces) => pieces,
        Err(e) => {
            return Err(RouteError::Failed(e));
        },
    };
    let ghost all = pieces@;
    let ghost channels = choose|channels: Seq<int>| #[trigger]
        may_choose(*old(partitioner), batch, channels) && is_spread(
            batch,
            sinks@.len(),
            all,
            channels,
        ) && follows_way(*old(partitioner), batch, channels);
    proof {
        lemma_routed(batch, sinks@, all, channels);
    }
    let writes = open_pieces(sinks, pieces);
    proof {
        assert(is_routed(batch, sinks@, writes@, channels));
        assert(has_route(*old(partitioner), batch, sinks@, writes@));
    }
    Ok(writes)
}

/// The batch as a whole for every channel that is read.
fn broadcast(sinks: &ShuffleSinks, batch: &Batch) -> (writes: Vec<(usize, Batch)>)
    ensures
        is_broadcast(*batch, sinks@, writes@),
{
    let targets = sinks.remaining();
    let ghost whole = targets@.map_values(|c: usize| (c, *batch));
    let mut writes: Vec<(usize, Batch)> = Vec::new();
    let mut i: usize = 0;
    while i < targets.len()
        invariant
            i <= targets@.len(),
            whole == targets@.map_values(|c: usize| (c, *batch)),
            writes@ == whole.take(i as int),
        decreases targets@.len() - i,
    {
        writes.push((targets[i], record_batch::copy_batch(batch)));
        i = i + 1;
        assert(writes@ =~= whole.take(i as int));
    }
    assert(whole.take(i as int) =~= whole);
    writes
}

proof fn lemma_rows_in(channels: Seq<int>, channel: int, row: int)
    ensures
        rows_in(channels, channel).contains(row) <==> 0 <= row < channels.len() && channels[row]
            == channel,
        rows_in(channels, channel).no_duplicates(),
        forall|i: int|
            0 <= i < rows_in(channels, channel).len() ==> 0 <= #[trigger] rows_in(
                channels,
                channel,
            )[i] < channels.len(),
    decreases channels.len(),
{
    if channels.len() > 0 {
        let before = rows_in(channels.drop_last(), channel);
        let rows = rows_in(channels, channel);
        lemma_rows_in(channels.drop_last(), channel, row);
        if rows != before {
            assert(rows =~= before.push(channels.len() - 1));
            assert(rows[rows.len() - 1] == channels.len() - 1);
            if before.contains(row) {
                assert(rows[before.index_of(row)] == row);
            }
            if rows.contains(row) && row != channels.len() - 1 {
                assert(before[rows.index_of(row)] == row);
            }
        }
    }
}

/// Each row of a batch that carries no marker reaches exactly one channel: the write to its own
/// channel holds it once, where that channel is read, and no other write holds it.
pub proof fn law_each_row_reaches_one_channel(
    batch: Batch,
    open: Seq<bool>,
    writes: Seq<(usize, Batch)>,
    channels: Seq<int>,
    row: int,
)
    requires
        is_routed(batch, open, writes, channels),
        0 <= row < batch_rows(batch),
    ensures
        forall|k: int|
            0 <= k < writes.len() ==> (rows_in(
                channels,
                (#[trigger] writes[k]).0 as int,
            ).contains(row) <==> writes[k].0 == channels[row]),
        forall|k: int|
            0 <= k < writes.len() ==> rows_in(
                channels,
                (#[trigger] writes[k]).0 as int,
            ).no_duplicates(),
        open[channels[row]] <==> exists|k: int|
            0 <= k < writes.len() && (#[trigger] writes[k]).0 == channels[row],
        forall|j: int, k: int|
            0 <= j < writes.len() && 0 <= k < writes.len() && (#[trigger] writes[j]).0
                == channels[row] && (#[trigger] writes[k]).0 == channels[row] ==> j == k,
{
    assert forall|k: int| 0 <= k < writes.len() implies (rows_in(
        channels,
        (#[trigger] writes[k]).0 as int,
    ).contains(row) <==> writes[k].0 == channels[row]) && rows_in(
        channels,
        writes[k].0 as int,
    ).no_duplicates() by {
        lemma_rows_in(channels, writes[k].0 as int, row);
    }
}

/// Whether each partitioner is the one before it after one more batch.
pub open spec fn is_run(states: Seq<BatchPartitioner>) -> bool {
    forall|k: int| 0 <= k < states.len() - 1 ==> is_after(#[trigger] states[k + 1], states[k])
}

proof fn lemma_run_keeps_keys(states: Seq<BatchPartitioner>, i: int, j: int, columns: Seq<nat>)
    requires
        is_run(states),
        0 <= i <= j < states.len(),
        partitioner_way(states[i]) == (Way::ByColumns { columns }),
    ensures
        partitioner_way(states[j]) == (Way::ByColumns { columns }),
        forall|key: Seq<(Seq<char>, Option<Seq<char>>)>| #[trigger]
            key_channel(states[j], key) == key_channel(states[i], key),
    decreases j - i,
{
    if i < j {
        lemma_run_keeps_keys(states, i, j - 1, columns);
        assert(is_after(states[(j - 1) + 1], states[j - 1]));
    }
}

/// Rows with the same key reach the same channel, in whatever batches of a run they come, where the
/// partitioner hashes columns of texts or whole numbers.
pub proof fn law_equal_keys_share_a_channel(
    states: Seq<BatchPartitioner>,
    columns: Seq<nat>,
    i: int,
    first: Batch,
    first_channels: Seq<int>,
    first_row: int,
    j: int,
    second: Batch,
    second_channels: Seq<int>,
    second_row: int,
)
    requires
        is_run(states),
        0 <= i <= j < states.len(),
        partitioner_way(states[i]) == (Way::ByColumns { columns }),
        has_keys(first, columns),
        has_keys(second, columns),
        follows_way(states[i], first, first_channels),
        follows_way(states[j], second, second_channels),
        0 <= first_row < first_channels.len(),
        0 <= second_row < second_channels.len(),
        key_of(first, columns, first_row) == key_of(second, columns, second_row),
    ensures
        first_channels[first_row] == second_channels[second_row],
{
    lemma_run_keeps_keys(states, i, j, columns);
}

/// Batches that go to channels in turn go to each channel once before one gets a second: of as many
/// batches as there are channels, those at two positions go to different ones.
pub proof fn law_turns_visit_every_channel(start: nat, channels: nat, first: nat, second: nat)
    requires
        start < channels,
        first < second < channels,
    ensures
        turn_after(start, channels, first) != turn_after(start, channels, second),
        turn_after(start, channels, second) < channels,
{
    lemma_turn(start, channels, first);
    lemma_turn(start, channels, second);
    if start + first < channels {
        vstd::arithmetic::div_mod::lemma_small_mod(start + first, channels);
        if start + second < channels {
            vstd::arithmetic::div_mod::lemma_small_mod(start + second, channels);
        } else {
            vstd::arithmetic::div_mod::lemma_mod_sub_multiples_vanish(
                (start + second) as int,
                channels as int,
            );
            vstd::arithmetic::div_mod::lemma_small_mod(
                (start + second - channels) as nat,
                channels,
            );
        }
    } else {
        vstd::arithmetic::div_mod::lemma_mod_sub_multiples_vanish(
            (start + first) as int,
            channels as int,
        );
        vstd::arithmetic::div_mod::lemma_small_mod((start + first - channels) as nat, channels);
        vstd::arithmetic::div_mod::lemma_mod_sub_multiples_vanish(
            (start + second) as int,
            channels as int,
        );
        vstd::arithmetic::div_mod::lemma_small_mod((start + second - channels) as nat, channels);
    }
}

/// The channel whose turn it is after a number of batches.
pub open spec fn turn_after(start: nat, channels: nat, batches: nat) -> nat
    decreases batches,
{
    if batches == 0 {
        start
    } else {
        next_way(
            Way::InTurn { next: turn_after(start, channels, (batches - 1) as nat) },
            channels,
        )->next
    }
}

proof fn lemma_turn(start: nat, channels: nat, batches: nat)
    requires
        start < channels,
    ensures
        turn_after(start, channels, batches) == (start + batches) % channels,
    decreases batches,
{
    if batches == 0 {
        vstd::arithmetic::div_mod::lemma_small_mod(start, channels);
    } else {
        lemma_turn(start, channels, (batches - 1) as nat);
        vstd::arithmetic::div_mod::lemma_add_mod_noop(
            (start + batches - 1) as int,
            1,
            channels as int,
        );
        if channels == 1 {
            assert(turn_after(start, channels, batches) == 0);
        } else {
            vstd::arithmetic::div_mod::lemma_small_mod(1, channels);
        }
    }
}

/// Writing keeps the number of channels. Where there are no keys, rows go round; otherwise they go by
/// the keys whose columns are known, in their order.
pub proof fn law_writing_goes_by_the_known_keys(p: PartitioningModel)
    ensures
        normalized(p).channel_count() == p.channel_count(),
        !(p is Hash) ==> normalized(p) == p,
        p matches PartitioningModel::Hash { keys, channels } ==> if keys.len() == 0 {
            normalized(p) == PartitioningModel::UnknownPartitioning(channels)
        } else {
            normalized(p) == (PartitioningModel::Hash {
                keys: keys.filter(|k: ShuffleKey| !k.unknown_column),
                channels,
            })
        },
{
    if p is Hash {
        lemma_known_keys(p->keys);
    }
}

proof fn lemma_known_keys(keys: Seq<ShuffleKey>)
    ensures
        known_keys(keys) == keys.filter(|k: ShuffleKey| !k.unknown_column),
    decreases keys.len(),
{
    reveal(Seq::filter);
    if keys.len() > 0 {
        lemma_known_keys(keys.drop_last());
    }
}

/// The rows of a channel are those that were given to it, in their order.
pub proof fn law_rows_of_a_channel_are_in_order(channels: Seq<int>, channel: int)
    ensures
        forall|r: int| #[trigger]
            rows_in(channels, channel).contains(r) <==> 0 <= r < channels.len() && channels[r]
                == channel,
        forall|i: int, j: int|
            0 <= i < j < rows_in(channels, channel).len() ==> #[trigger] rows_in(
                channels,
                channel,
            )[i] < #[trigger] rows_in(channels, channel)[j],
    decreases channels.len(),
{
    let all = rows_in(channels, channel);
    if channels.len() > 0 {
        let rest = channels.drop_last();
        let before = rows_in(rest, channel);
        let n = channels.len() - 1;
        law_rows_of_a_channel_are_in_order(rest, channel);
        assert forall|i: int| 0 <= i < before.len() implies 0 <= #[trigger] before[i] < n by {
            assert(before.contains(before[i]));
        }
        assert forall|r: int| #[trigger]
            all.contains(r) <==> 0 <= r < channels.len() && channels[r] == channel by {
            if before.contains(r) {
                let i = choose|i: int| 0 <= i < before.len() && before[i] == r;
                assert(all[i] == r);
            }
            if all.contains(r) {
                let i = choose|i: int| 0 <= i < all.len() && all[i] == r;
                if i < before.len() {
                    assert(before[i] == r);
                    assert(before.contains(r));
                }
            }
            if 0 <= r < n && channels[r] == channel {
                assert(rest[r] == channel);
                assert(before.contains(r));
            }
            if r == n && channels[n] == channel {
                assert(all[before.len() as int] == n);
            }
        }
    }
}

/// A marker or a batch reaches its channels from the first to the last.
pub proof fn law_targets_are_in_order(open: Seq<bool>, marker: bool, pieces: Seq<bool>, n: nat)
    requires
        n <= open.len() <= usize::MAX,
    ensures
        forall|i: int, j: int|
            0 <= i < j < targets_of(open, marker, pieces, n).len() ==> #[trigger] targets_of(
                open,
                marker,
                pieces,
                n,
            )[i] < #[trigger] targets_of(open, marker, pieces, n)[j],
        forall|i: int|
            0 <= i < targets_of(open, marker, pieces, n).len() ==> {
                let c = #[trigger] targets_of(open, marker, pieces, n)[i];
                c < n && open[c as int] && (marker || pieces[c as int])
            },
    decreases n,
{
    if n > 0 {
        let m = (n - 1) as nat;
        law_targets_are_in_order(open, marker, pieces, m);
        let before = targets_of(open, marker, pieces, m);
        let all = targets_of(open, marker, pieces, n);
        assert((n - 1) as usize == n - 1);
        assert forall|i: int| 0 <= i < all.len() implies {
            let c = #[trigger] all[i];
            c < n && open[c as int] && (marker || pieces[c as int])
        } by {
            if i < before.len() {
                assert(all[i] == before[i]);
            }
        }
        assert forall|i: int, j: int| 0 <= i < j < all.len() implies #[trigger] all[i]
            < #[trigger] all[j] by {
            assert(all[i] == before[i]);
            assert(before[i] < m);
            if j < before.len() {
                assert(all[j] == before[j]);
            }
        }
    }
}

} // verus!
