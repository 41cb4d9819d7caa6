//! The task streams that a driver or worker holds, in the order in which they were recorded.

use indexmap::IndexSet;
use vstd::prelude::*;

use crate::ids::{JobId, TaskKey};

verus! {

/// The type `indexmap::IndexSet`.
#[verifier::external_type_specification]
#[verifier::external_body]
#[verifier::reject_recursive_types(T)]
#[verifier::reject_recursive_types(S)]
pub struct ExIndexSet<T, S>(IndexSet<T, S>);

/// The items of an `IndexSet` in iteration order.
pub uninterp spec fn index_set_items(set: IndexSet<(u64, usize, usize, usize)>) -> Seq<
    (u64, usize, usize, usize),
>;

/// `IndexSet::new`: a set without items.
#[verifier::external_body]
fn index_set_new() -> (set: IndexSet<(u64, usize, usize, usize)>)
    ensures
        index_set_items(set) == Seq::<(u64, usize, usize, usize)>::empty(),
{
    IndexSet::new()
}

/// `IndexSet::len`: the number of items.
#[verifier::external_body]
fn index_set_len(set: &IndexSet<(u64, usize, usize, usize)>) -> (len: usize)
    ensures
        len == index_set_items(*set).len(),
{
    set.len()
}

/// `IndexSet::insert`: an item that is not in the set becomes its last item; one that is there
/// leaves the set as it was.
#[verifier::external_body]
fn index_set_insert(
    set: &mut IndexSet<(u64, usize, usize, usize)>,
    item: (u64, usize, usize, usize),
) -> (added: bool)
    ensures
        added == !index_set_items(*old(set)).contains(item),
        index_set_items(*final(set)) == if added {
            index_set_items(*old(set)).push(item)
        } else {
            index_set_items(*old(set))
        },
{
    set.insert(item)
}

/// `IndexSet::retain`: the items for which the predicate holds stay, in their order.
#[verifier::external_body]
fn index_set_retain(
    set: &mut IndexSet<(u64, usize, usize, usize)>,
    job_id: JobId,
    stage: Option<usize>,
)
    ensures
        index_set_items(*final(set)) == index_set_items(*old(set)).filter(
            |item: (u64, usize, usize, usize)| !stream_matches(item, job_id, stage),
        ),
{
    set.retain(|item| is_other_stream(item, job_id, stage))
}

/// Whether a stream belongs to the job and, where one is given, to the stage.
pub open spec fn stream_matches(
    item: (u64, usize, usize, usize),
    job_id: JobId,
    stage: Option<usize>,
) -> bool {
    item.0 == job_id.0 && match stage {
        Some(s) => item.1 == s,
        None => true,
    }
}

fn is_other_stream(
    item: &(u64, usize, usize, usize),
    job_id: JobId,
    stage: Option<usize>,
) -> (other: bool)
    ensures
        other == !stream_matches(*item, job_id, stage),
{
    match stage {
        Some(s) => item.0 != job_id.0 || item.1 != s,
        None => item.0 != job_id.0,
    }
}

/// The item under which the streams of a task are recorded.
pub open spec fn stream_item(key: TaskKey) -> (u64, usize, usize, usize) {
    (key.job_id.0, key.stage, key.partition, key.attempt)
}

/// A set of task streams.
#[derive(Debug)]
pub struct StreamSet {
    items: IndexSet<(u64, usize, usize, usize)>,
}

impl View for StreamSet {
    type V = Seq<(u64, usize, usize, usize)>;

    closed spec fn view(&self) -> Seq<(u64, usize, usize, usize)> {
        index_set_items(self.items)
    }
}

/// The items of `streams` with the streams of a task recorded.
pub open spec fn with_stream(
    streams: Seq<(u64, usize, usize, usize)>,
    key: TaskKey,
) -> Seq<(u64, usize, usize, usize)> {
    if streams.contains(stream_item(key)) {
        streams
    } else {
        streams.push(stream_item(key))
    }
}

/// The items of `streams` without those of a job, or of one stage of it.
pub open spec fn without_streams(
    streams: Seq<(u64, usize, usize, usize)>,
    job_id: JobId,
    stage: Option<usize>,
) -> Seq<(u64, usize, usize, usize)> {
    streams.filter(|item: (u64, usize, usize, usize)| !stream_matches(item, job_id, stage))
}

/// Whether `streams` holds a stream of a job, or of one stage of it.
pub open spec fn holds_streams(
    streams: Seq<(u64, usize, usize, usize)>,
    job_id: JobId,
    stage: Option<usize>,
) -> bool {
    exists|i: int| 0 <= i < streams.len() && stream_matches(#[trigger] streams[i], job_id, stage)
}

proof fn lemma_filter_shrinks(
    streams: Seq<(u64, usize, usize, usize)>,
    job_id: JobId,
    stage: Option<usize>,
)
    ensures
        without_streams(streams, job_id, stage).len() <= streams.len(),
        without_streams(streams, job_id, stage).len() < streams.len() <==> holds_streams(
            streams,
            job_id,
            stage,
        ),
        !holds_streams(streams, job_id, stage) ==> without_streams(streams, job_id, stage)
            == streams,
    decreases streams.len(),
{
    reveal(Seq::filter);
    if streams.len() > 0 {
        let prior = streams.drop_last();
        lemma_filter_shrinks(prior, job_id, stage);
        if holds_streams(prior, job_id, stage) {
            let i = choose|i: int|
                0 <= i < prior.len() && stream_matches(#[trigger] prior[i], job_id, stage);
            assert(stream_matches(streams[i], job_id, stage));
        }
        if stream_matches(streams.last(), job_id, stage) {
            assert(stream_matches(streams[streams.len() - 1], job_id, stage));
        }
        if holds_streams(streams, job_id, stage) && !stream_matches(streams.last(), job_id, stage) {
            let i = choose|i: int|
                0 <= i < streams.len() && stream_matches(#[trigger] streams[i], job_id, stage);
            assert(stream_matches(prior[i], job_id, stage));
        }
        if !holds_streams(streams, job_id, stage) {
            assert(without_streams(streams, job_id, stage) =~= streams);
        }
    }
}

/// After the streams of a job or stage were dropped, none of them is held.
pub proof fn lemma_without_streams_holds_none(
    streams: Seq<(u64, usize, usize, usize)>,
    job_id: JobId,
    stage: Option<usize>,
)
    ensures
        !holds_streams(without_streams(streams, job_id, stage), job_id, stage),
{
    let p = |item: (u64, usize, usize, usize)| !stream_matches(item, job_id, stage);
    let kept = streams.filter(p);
    assert forall|i: int| 0 <= i < kept.len() implies !stream_matches(
        #[trigger] kept[i],
        job_id,
        stage,
    ) by {
        streams.lemma_filter_pred(p, i);
        assert(p(kept[i]));
    }
}

impl StreamSet {
    /// The set without streams.
    pub fn new() -> (set: Self)
        ensures
            set@ == Seq::<(u64, usize, usize, usize)>::empty(),
    {
        StreamSet { items: index_set_new() }
    }

    /// Whether no stream is held.
    pub fn is_empty(&self) -> (empty: bool)
        ensures
            empty == (self@.len() == 0),
    {
        index_set_len(&self.items) == 0
    }

    /// Records the streams of a task.
    pub fn track(&mut self, key: &TaskKey)
        ensures
            final(self)@ == with_stream(old(self)@, *key),
    {
        index_set_insert(&mut self.items, (key.job_id.0, key.stage, key.partition, key.attempt));
    }

    /// Drops the streams of a job, or of one stage of it, and says whether any was held.
    pub fn untrack(&mut self, job_id: JobId, stage: Option<usize>) -> (any: bool)
        ensures
            final(self)@ == without_streams(old(self)@, job_id, stage),
            any == holds_streams(old(self)@, job_id, stage),
    {
        let before: usize = index_set_len(&self.items);
        index_set_retain(&mut self.items, job_id, stage);
        proof {
            lemma_filter_shrinks(old(self)@, job_id, stage);
        }
        index_set_len(&self.items) < before
    }
}

/// The streams of a job, or of one stage of it, are those that are taken away, and no others; the
/// rest keeps its order. A stream that is recorded is there once.
pub proof fn law_streams_leave_with_their_job(
    streams: Seq<(u64, usize, usize, usize)>,
    job_id: JobId,
    stage: Option<usize>,
    key: TaskKey,
)
    ensures
        stream_matches(stream_item(key), job_id, stage) <==> key.job_id == job_id && (stage is None
            || stage == Some(key.stage)),
        without_streams(streams, job_id, stage).contains(stream_item(key)) <==> streams.contains(
            stream_item(key),
        ) && !(key.job_id == job_id && (stage is None || stage == Some(key.stage))),
        with_stream(streams, key).contains(stream_item(key)),
        with_stream(with_stream(streams, key), key) == with_stream(streams, key),
        streams.no_duplicates() ==> with_stream(streams, key).no_duplicates(),
        holds_streams(streams, job_id, stage) <==> without_streams(streams, job_id, stage).len()
            < streams.len(),
{
    let p = |item: (u64, usize, usize, usize)| !stream_matches(item, job_id, stage);
    let item = stream_item(key);
    let left = without_streams(streams, job_id, stage);
    assert(left == streams.filter(p));
    if streams.contains(item) && p(item) {
        let i = choose|i: int| 0 <= i < streams.len() && streams[i] == item;
        streams.lemma_filter_contains(p, i);
    }
    if left.contains(item) {
        let i = choose|i: int| 0 <= i < left.len() && left[i] == item;
        streams.lemma_filter_pred(p, i);
        streams.lemma_filter_contains_rev(p, item);
    }
    if !streams.contains(item) {
        let all = streams.push(item);
        assert(all[streams.len() as int] == item);
    }
    lemma_filter_len(streams, job_id, stage);
}

proof fn lemma_filter_len(
    streams: Seq<(u64, usize, usize, usize)>,
    job_id: JobId,
    stage: Option<usize>,
)
    ensures
        without_streams(streams, job_id, stage).len() <= streams.len(),
        holds_streams(streams, job_id, stage) <==> without_streams(streams, job_id, stage).len()
            < streams.len(),
    decreases streams.len(),
{
    reveal(Seq::filter);
    if streams.len() > 0 {
        let rest = streams.drop_last();
        lemma_filter_len(rest, job_id, stage);
        if holds_streams(rest, job_id, stage) {
            let i = choose|i: int|
                0 <= i < rest.len() && stream_matches(#[trigger] rest[i], job_id, stage);
            assert(stream_matches(streams[i], job_id, stage));
        }
        if stream_matches(streams.last(), job_id, stage) {
            assert(stream_matches(streams[streams.len() - 1], job_id, stage));
        }
        if holds_streams(streams, job_id, stage) {
            let i = choose|i: int|
                0 <= i < streams.len() && stream_matches(#[trigger] streams[i], job_id, stage);
            if i < rest.len() {
                assert(stream_matches(rest[i], job_id, stage));
            }
        }
    }
}

} // verus!
