//! From a stream of flow events to plain data, and the commit steps of streaming file sinks.

use datafusion::arrow::datatypes::Schema;
use datafusion::arrow::error::ArrowError;
use vstd::prelude::*;

use crate::checkpoint::{child_path, path_below};
use crate::record_batch;
use crate::record_batch::{
    all_within, batch_columns, batch_fields, batch_rows, column_names, is_projection, null_cells,
    schema_fields, Batch,
};
use crate::schema::{is_index_of, lemma_one_index};
use crate::text;
use crate::text::{decimal, texts};

verus! {

/// The column that carries markers.
pub const MARKER_FIELD_NAME: &'static str = "_marker";

/// The column that tells retracted rows.
pub const RETRACTED_FIELD_NAME: &'static str = "_retracted";

/// Whether a column carries data.
pub open spec fn is_data_column(name: Seq<char>) -> bool {
    name != MARKER_FIELD_NAME@ && name != RETRACTED_FIELD_NAME@
}

/// The positions of the data columns among the first `n` columns.
pub open spec fn data_columns(names: Seq<Seq<char>>, n: nat) -> Seq<usize>
    decreases n,
{
    if n == 0 {
        Seq::empty()
    } else {
        let before = data_columns(names, (n - 1) as nat);
        if is_data_column(names[n - 1]) {
            before.push((n - 1) as usize)
        } else {
            before
        }
    }
}

/// The positions of the data columns of a flow-event schema, in order.
pub fn keep_columns(names: &[String]) -> (keep: Vec<usize>)
    ensures
        keep@ == data_columns(texts(names@), names@.len()),
{
    let ghost all = texts(names@);
    let mut keep: Vec<usize> = Vec::new();
    let mut i: usize = 0;
    while i < names.len()
        invariant
            i <= names@.len(),
            all == texts(names@),
            keep@ == data_columns(all, i as nat),
        decreases names@.len() - i,
    {
        assert(all[i as int] == names@[i as int]@);
        if !text::str_eq(names[i].as_str(), MARKER_FIELD_NAME) && !text::str_eq(
            names[i].as_str(),
            RETRACTED_FIELD_NAME,
        ) {
            keep.push(i);
        }
        i = i + 1;
    }
    keep
}

/// Whether some cell is not null.
pub open spec fn has_value(cells: Seq<Option<Seq<char>>>) -> bool {
    exists|r: int| 0 <= r < cells.len() && (#[trigger] cells[r]) is Some
}

/// Whether a batch with some columns carries a marker: it has a column of byte strings for markers,
/// and some cell of it is not null.
pub open spec fn carries_marker(
    fields: Seq<(Seq<char>, Seq<char>, bool)>,
    columns: Seq<Seq<Option<Seq<char>>>>,
) -> bool {
    exists|at: usize| #[trigger]
        is_index_of(column_names(fields), MARKER_FIELD_NAME@, Some(at))
            && fields[at as int].1 == "Binary"@ && has_value(columns[at as int])
}

proof fn lemma_null_cells(cells: Seq<Option<Seq<char>>>)
    ensures
        null_cells(cells) <= cells.len(),
        null_cells(cells) < cells.len() <==> has_value(cells),
    decreases cells.len(),
{
    if cells.len() > 0 {
        let before = cells.drop_last();
        lemma_null_cells(before);
        if has_value(before) {
            let r = choose|r: int| 0 <= r < before.len() && (#[trigger] before[r]) is Some;
            assert(cells[r] is Some);
        }
        if cells.last() is Some {
            assert(cells[cells.len() - 1] is Some);
        } else if has_value(cells) {
            let r = choose|r: int| 0 <= r < cells.len() && (#[trigger] cells[r]) is Some;
            assert(before[r] is Some);
        }
    }
}

/// Whether a batch of flow events carries a marker: some cell of its marker column, where it has
/// one, is not null.
pub fn is_marker_batch(batch: &Batch) -> (marker: bool)
    ensures
        marker == carries_marker(batch_fields(*batch), batch_columns(*batch)),
{
    let schema = record_batch::batch_schema(batch);
    let ghost names = column_names(batch_fields(*batch));
    assert(names.len() == batch_fields(*batch).len());
    match record_batch::find_column(&schema, MARKER_FIELD_NAME) {
        Some(at) => {
            proof {
                lemma_null_cells(batch_columns(*batch)[at as int]);
                lemma_one_index();
            }
            match record_batch::binary_nulls(batch, at) {
                Some((nulls, len)) => nulls < len,
                None => false,
            }
        },
        None => {
            proof {
                lemma_one_index();
            }
            false
        },
    }
}

/// The positions of the data columns of a schema.
pub open spec fn kept_columns(fields: Seq<(Seq<char>, Seq<char>, bool)>) -> Seq<usize> {
    data_columns(column_names(fields), fields.len())
}

/// The data of a batch of flow events, given the schema of the events: its data columns, in order,
/// with the same rows. There is none in a batch that carries a marker or has no rows, and it fails
/// where the batch lacks one of the columns.
pub fn data_of(schema: &Schema, batch: &Batch) -> (result: Result<Option<Batch>, ArrowError>)
    ensures
        ({
            let keep = kept_columns(schema_fields(*schema));
            let marker = carries_marker(batch_fields(*batch), batch_columns(*batch));
            let complete = all_within(keep, batch_fields(*batch).len());
            match result {
                Ok(Some(data)) => {
                    &&& !marker && complete && batch_rows(*batch) > 0
                    &&& is_projection(data, *batch, keep)
                },
                Ok(None) => marker || complete && batch_rows(*batch) == 0,
                Err(_) => !marker && !complete,
            }
        }),
{
    if is_marker_batch(batch) {
        return Ok(None);
    }
    let count = record_batch::column_count(schema);
    let mut names: Vec<String> = Vec::new();
    let mut i: usize = 0;
    let ghost all = column_names(schema_fields(*schema));
    assert(all.len() == count);
    while i < count
        invariant
            i <= count == all.len() == schema_fields(*schema).len(),
            all == column_names(schema_fields(*schema)),
            names@.len() == i,
            forall|k: int| 0 <= k < i ==> (#[trigger] names@[k])@ == all[k],
        decreases count - i,
    {
        names.push(record_batch::column_name(schema, i));
        i = i + 1;
    }
    assert(texts(names@) =~= all);
    let keep = keep_columns(names.as_slice());
    match record_batch::project_batch(batch, keep.as_slice()) {
        Ok(data) => {
            if record_batch::row_count(&data) > 0 {
                Ok(Some(data))
            } else {
                Ok(None)
            }
        },
        Err(e) => Err(e),
    }
}

/// What the end of a writer means for a sink of several writers.
#[derive(Debug, Clone, Copy, PartialEq, Eq, Structural)]
pub enum WriterOutcome {
    /// Other writers are still at work.
    Waiting,
    /// All writers have finished.
    Complete,
    /// The sink fails with the writer.
    Failed,
}

/// The progress of a sink of several writers: it completes only when all writers have finished.
#[derive(Debug)]
pub struct ParallelSink {
    running: usize,
    failed: bool,
}

impl ParallelSink {
    /// The number of writers at work.
    pub closed spec fn running(&self) -> nat {
        self.running as nat
    }

    /// Whether a writer has failed.
    pub closed spec fn failed(&self) -> bool {
        self.failed
    }

    /// A sink with the given number of writers.
    pub fn new(writers: usize) -> (sink: Self)
        ensures
            sink.running() == writers,
            !sink.failed(),
    {
        ParallelSink { running: writers, failed: false }
    }

    /// Whether all writers have finished, none of them with a failure: so it is from the start where
    /// there are no writers.
    pub fn is_complete(&self) -> (complete: bool)
        ensures
            complete == (self.running() == 0 && !self.failed()),
    {
        self.running == 0 && !self.failed
    }

    /// A writer has ended.
    pub fn writer_ended(&mut self, ok: bool) -> (outcome: WriterOutcome)
        requires
            old(self).running() > 0,
        ensures
            final(self).running() == old(self).running() - 1,
            final(self).failed() == (old(self).failed() || !ok),
            outcome == if final(self).failed() {
                WriterOutcome::Failed
            } else if final(self).running() == 0 {
                WriterOutcome::Complete
            } else {
                WriterOutcome::Waiting
            },
    {
        self.running = self.running - 1;
        if !ok {
            self.failed = true;
        }
        if self.failed {
            WriterOutcome::Failed
        } else if self.running == 0 {
            WriterOutcome::Complete
        } else {
            WriterOutcome::Waiting
        }
    }
}

/// A step in the commit of a micro-batch of a file sink.
#[derive(Debug, Clone, Copy, PartialEq, Eq, Structural)]
pub enum CommitStep {
    /// Remove what an earlier attempt at the batch left in its directory.
    CleanDirectory,
    /// Let the writers write, until all data is durable.
    Write,
    /// List the directory of the batch.
    ListFiles,
    /// Write the metadata file that lists these files: the commit.
    WriteLog,
    /// Tell the driver that the batch is committed.
    Acknowledge,
    /// Report the failure of a step.
    Fail,
}

/// The step behind another, which succeeded or failed. A failure ends the attempt: the batch then
/// stays uncommitted.
pub fn next_commit_step(done: CommitStep, ok: bool) -> (next: Option<CommitStep>)
    ensures
        next == commit_step_after(done, ok),
{
    match done {
        CommitStep::Acknowledge => None,
        CommitStep::Fail => None,
        _ => if !ok {
            Some(CommitStep::Fail)
        } else {
            match done {
                CommitStep::CleanDirectory => Some(CommitStep::Write),
                CommitStep::Write => Some(CommitStep::ListFiles),
                CommitStep::ListFiles => Some(CommitStep::WriteLog),
                _ => Some(CommitStep::Acknowledge),
            }
        },
    }
}

/// The step behind another.
pub open spec fn commit_step_after(done: CommitStep, ok: bool) -> Option<CommitStep> {
    if done == CommitStep::Acknowledge || done == CommitStep::Fail {
        None
    } else if !ok {
        Some(CommitStep::Fail)
    } else {
        match done {
            CommitStep::CleanDirectory => Some(CommitStep::Write),
            CommitStep::Write => Some(CommitStep::ListFiles),
            CommitStep::ListFiles => Some(CommitStep::WriteLog),
            _ => Some(CommitStep::Acknowledge),
        }
    }
}

/// The step after `n` steps that succeed.
pub open spec fn nth_commit_step(n: nat) -> Option<CommitStep>
    decreases n,
{
    if n == 0 {
        Some(CommitStep::CleanDirectory)
    } else {
        match nth_commit_step((n - 1) as nat) {
            Some(step) => commit_step_after(step, true),
            None => None,
        }
    }
}

/// The commit is written only after the directory was cleaned, all data was written and the files
/// were listed; and it is acknowledged only after it was written.
pub proof fn law_commit_follows_the_data()
    ensures
        nth_commit_step(0) == Some(CommitStep::CleanDirectory),
        nth_commit_step(1) == Some(CommitStep::Write),
        nth_commit_step(2) == Some(CommitStep::ListFiles),
        nth_commit_step(3) == Some(CommitStep::WriteLog),
        nth_commit_step(4) == Some(CommitStep::Acknowledge),
        nth_commit_step(5) is None,
        forall|step: CommitStep| #[trigger]
            commit_step_after(step, false) != Some(CommitStep::Acknowledge),
{
    reveal_with_fuel(nth_commit_step, 6);
}

/// The data of a continuous stream, cut into epochs that are committed one by one.
#[derive(Debug)]
pub struct EpochBuffer<B> {
    epoch: u64,
    batches: Vec<B>,
}

impl<B> EpochBuffer<B> {
    /// The epoch that is being collected.
    pub closed spec fn epoch(&self) -> u64 {
        self.epoch
    }

    /// The batches collected for the epoch.
    pub closed spec fn pending(&self) -> Seq<B> {
        self.batches@
    }

    /// A buffer that begins with the given epoch.
    pub fn new(start_epoch: u64) -> (buffer: Self)
        ensures
            buffer.epoch() == start_epoch,
            buffer.pending() == Seq::<B>::empty(),
    {
        EpochBuffer { epoch: start_epoch, batches: Vec::new() }
    }

    /// Collects a batch with the given number of rows; one without rows is dropped.
    pub fn push(&mut self, batch: B, rows: usize)
        ensures
            final(self).epoch() == old(self).epoch(),
            final(self).pending() == if rows > 0 {
                old(self).pending().push(batch)
            } else {
                old(self).pending()
            },
    {
        if rows > 0 {
            self.batches.push(batch);
        }
    }

    /// Ends the epoch: gives its number and batches to commit, and begins the next. An epoch
    /// without batches goes on.
    pub fn end_epoch(&mut self) -> (commit: Option<(u64, Vec<B>)>)
        requires
            old(self).epoch() < u64::MAX,
        ensures
            match commit {
                Some((epoch, batches)) => {
                    &&& old(self).pending().len() > 0
                    &&& epoch == old(self).epoch()
                    &&& batches@ == old(self).pending()
                    &&& final(self).epoch() == old(self).epoch() + 1
                    &&& final(self).pending() == Seq::<B>::empty()
                },
                None => {
                    &&& old(self).pending().len() == 0
                    &&& final(self).epoch() == old(self).epoch()
                    &&& final(self).pending() == old(self).pending()
                },
            },
    {
        if self.batches.len() == 0 {
            return None;
        }
        let mut batches: Vec<B> = Vec::new();
        core::mem::swap(&mut batches, &mut self.batches);
        let epoch: u64 = self.epoch;
        self.epoch = epoch + 1;
        Some((epoch, batches))
    }
}

/// What happens to a continuous file sink.
pub enum SinkEvent<B> {
    /// A batch with rows arrives.
    Batch(B),
    /// The commit interval has passed.
    Tick,
}

/// The state of a continuous file sink: the epochs committed so far, and the one being collected.
pub struct SinkHistory<B> {
    pub commits: Seq<(int, Seq<B>)>,
    pub epoch: int,
    pub pending: Seq<B>,
}

/// The state after some events.
pub open spec fn history<B>(start: int, events: Seq<SinkEvent<B>>) -> SinkHistory<B>
    decreases events.len(),
{
    if events.len() == 0 {
        SinkHistory { commits: Seq::empty(), epoch: start, pending: Seq::empty() }
    } else {
        let h = history(start, events.drop_last());
        match events.last() {
            SinkEvent::Batch(b) => SinkHistory { pending: h.pending.push(b), ..h },
            SinkEvent::Tick => if h.pending.len() > 0 {
                SinkHistory {
                    commits: h.commits.push((h.epoch, h.pending)),
                    epoch: h.epoch + 1,
                    pending: Seq::empty(),
                }
            } else {
                h
            },
        }
    }
}

/// The batches of some events.
pub open spec fn event_batches<B>(events: Seq<SinkEvent<B>>) -> Seq<B>
    decreases events.len(),
{
    if events.len() == 0 {
        Seq::empty()
    } else {
        match events.last() {
            SinkEvent::Batch(b) => event_batches(events.drop_last()).push(b),
            SinkEvent::Tick => event_batches(events.drop_last()),
        }
    }
}

/// The batches of commits, one after the other.
pub open spec fn commit_batches<B>(commits: Seq<(int, Seq<B>)>) -> Seq<B>
    decreases commits.len(),
{
    if commits.len() == 0 {
        Seq::empty()
    } else {
        commit_batches(commits.drop_last()) + commits.last().1
    }
}

/// Every batch is committed in exactly one epoch, or still being collected, in the order of
/// arrival; epochs are numbered without gaps, and none is committed without data.
pub proof fn law_epochs_partition_the_data<B>(start: int, events: Seq<SinkEvent<B>>)
    ensures
        commit_batches(history(start, events).commits) + history(start, events).pending
            == event_batches(events),
        history(start, events).epoch == start + history(start, events).commits.len(),
        forall|k: int|
            0 <= k < history(start, events).commits.len() ==> (#[trigger] history(
                start,
                events,
            ).commits[k]).0 == start + k && history(start, events).commits[k].1.len() > 0,
    decreases events.len(),
{
    let after = history(start, events);
    if events.len() == 0 {
        assert(commit_batches(after.commits) + after.pending =~= event_batches(events));
    } else {
        law_epochs_partition_the_data(start, events.drop_last());
        let h = history(start, events.drop_last());
        match events.last() {
            SinkEvent::Batch(b) => {
                assert(commit_batches(after.commits) + after.pending =~= (commit_batches(h.commits)
                    + h.pending).push(b));
            },
            SinkEvent::Tick => {
                if h.pending.len() > 0 {
                    assert(after.commits.drop_last() =~= h.commits);
                    assert(commit_batches(after.commits) + after.pending =~= commit_batches(
                        h.commits,
                    ) + h.pending);
                }
            },
        }
    }
}

/// The path of the data file of an epoch.
pub fn epoch_file(base: &str, epoch: u64) -> (path: String)
    ensures
        path@ == child_path(child_path(base@, decimal(epoch as nat)), "part-0.parquet"@),
{
    let name = text::u64_to_text(epoch);
    let dir = path_below(base, name.as_str());
    path_below(dir.as_str(), "part-0.parquet")
}

/// Why an operator of the streaming sink cannot be planned or executed.
#[derive(Debug, Clone, Copy, PartialEq, Eq, Structural)]
pub enum OperatorError {
    /// The operator has exactly one child.
    WrongChildren { children: usize },
    /// The operator has a single partition.
    InvalidPartition { partition: usize },
}

/// Checks the number of children of an operator with a single one.
pub fn check_single_child(children: usize) -> (result: Result<(), OperatorError>)
    ensures
        result == if children == 1 {
            Ok::<(), OperatorError>(())
        } else {
            Err::<(), OperatorError>(OperatorError::WrongChildren { children })
        },
{
    if children != 1 {
        return Err(OperatorError::WrongChildren { children });
    }
    Ok(())
}

/// Checks the partition of an operator with a single one.
pub fn check_single_partition(partition: usize) -> (result: Result<(), OperatorError>)
    ensures
        result == if partition == 0 {
            Ok::<(), OperatorError>(())
        } else {
            Err::<(), OperatorError>(OperatorError::InvalidPartition { partition })
        },
{
    if partition != 0 {
        return Err(OperatorError::InvalidPartition { partition });
    }
    Ok(())
}

/// The columns of data are all but those that carry the marker and the retraction of a flow event, in
/// their order.
pub proof fn law_data_columns_are_the_rest(names: Seq<Seq<char>>, n: nat)
    requires
        n <= names.len() <= usize::MAX,
    ensures
        forall|i: usize| #[trigger]
            data_columns(names, n).contains(i) <==> i < n && names[i as int] != "_marker"@
                && names[i as int] != "_retracted"@,
        forall|i: int, j: int|
            0 <= i < j < data_columns(names, n).len() ==> #[trigger] data_columns(names, n)[i]
                < #[trigger] data_columns(names, n)[j],
    decreases n,
{
    let all = data_columns(names, n);
    if n > 0 {
        let m = (n - 1) as nat;
        let before = data_columns(names, m);
        law_data_columns_are_the_rest(names, m);
        assert((n - 1) as usize == n - 1);
        assert forall|i: int| 0 <= i < before.len() implies #[trigger] before[i] < m by {
            assert(before.contains(before[i]));
        }
        assert forall|i: usize| #[trigger]
            all.contains(i) <==> i < n && names[i as int] != "_marker"@ && names[i as int]
                != "_retracted"@ by {
            if before.contains(i) {
                let k = choose|k: int| 0 <= k < before.len() && before[k] == i;
                assert(all[k] == i);
            }
            if all.contains(i) {
                let k = choose|k: int| 0 <= k < all.len() && all[k] == i;
                if k < before.len() {
                    assert(before[k] == i);
                    assert(before.contains(i));
                }
            }
            if i == m && is_data_column(names[m as int]) {
                assert(all[before.len() as int] == i);
            }
            if i < m {
                assert(before.contains(i) <==> i < m && names[i as int] != "_marker"@
                    && names[i as int] != "_retracted"@);
            }
        }
        assert forall|i: int, j: int| 0 <= i < j < all.len() implies #[trigger] all[i]
            < #[trigger] all[j] by {
            assert(all[i] == before[i]);
            if j < before.len() {
                assert(all[j] == before[j]);
            }
        }
    }
}

/// A failed step of a commit leads to failure, and the end has no next step; so data is acknowledged
/// only after its log is written.
pub proof fn law_only_logged_data_is_acknowledged(done: CommitStep, ok: bool)
    ensures
        commit_step_after(done, ok) == Some(CommitStep::Acknowledge) <==> ok && done
            == CommitStep::WriteLog,
        commit_step_after(done, ok) == Some(CommitStep::WriteLog) <==> ok && done
            == CommitStep::ListFiles,
        commit_step_after(done, ok) == Some(CommitStep::ListFiles) <==> ok && done
            == CommitStep::Write,
        commit_step_after(done, ok) == Some(CommitStep::Write) <==> ok && done
            == CommitStep::CleanDirectory,
        commit_step_after(done, ok) is None <==> done == CommitStep::Acknowledge || done
            == CommitStep::Fail,
{
}

} // verus!
