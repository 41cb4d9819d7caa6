//! Assignment of task regions to the driver and to worker task slots.

use std::collections::VecDeque;

use vstd::prelude::*;

use crate::assoc::AssocMap;
use crate::ids::{JobId, TaskKey, WorkerId};
use crate::stream_set::{holds_streams, stream_item, with_stream, without_streams, StreamSet};
use crate::text;

verus! {

/// Where the tasks of a set run.
#[derive(Debug, Clone, Copy, PartialEq, Eq, Structural)]
pub enum TaskPlacement {
    Driver,
    Worker,
}

/// Where the output streams of a task are kept.
#[derive(Debug, Clone, Copy, PartialEq, Eq, Structural)]
pub enum TaskOutputKind {
    /// On the resource that runs the task.
    Local,
    /// In remote storage that the driver cleans up.
    Remote,
}

/// One task of a set.
#[derive(Debug, Clone, Copy, PartialEq, Eq, Structural)]
pub struct TaskSetEntry {
    pub key: TaskKey,
    pub output: TaskOutputKind,
}

/// Tasks that share one task slot.
#[derive(Debug)]
pub struct TaskSet {
    pub entries: Vec<TaskSetEntry>,
}

/// Task sets that must be assigned together or not at all.
#[derive(Debug)]
pub struct TaskRegion {
    pub tasks: Vec<(TaskPlacement, TaskSet)>,
}

/// The resource that runs a task.
#[derive(Debug, Clone, Copy, PartialEq, Eq, Structural)]
pub enum TaskAssignment {
    Driver,
    Worker { worker_id: WorkerId, slot: usize },
}

/// A task set and the resource that runs it.
#[derive(Debug)]
pub struct TaskSetAssignment {
    pub set: TaskSet,
    pub assignment: TaskAssignment,
}

/// The resource that keeps task streams.
#[derive(Debug, Clone, Copy, PartialEq, Eq, Hash, Structural)]
pub enum TaskStreamAssignment {
    Driver,
    Worker { worker_id: WorkerId },
}

/// How worker task slots are chosen.
#[derive(Debug, Clone, Copy, PartialEq, Eq, Structural)]
pub enum PlacementPolicy {
    /// Fill the slots of one worker before those of the next.
    FillFirst,
    /// Take a slot of the worker with the most free slots, the first of them on a tie.
    EvenSpread,
}

/// Limits and policy of an assigner.
#[derive(Debug, Clone, Copy, PartialEq, Eq, Structural)]
pub struct TaskAssignerOptions {
    /// The largest number of workers; zero for no limit.
    pub worker_max_count: usize,
    /// The number of task slots of each worker.
    pub worker_task_slots: usize,
    pub placement: PlacementPolicy,
}

/// The policy for the values of the two settings that ask for an even spread.
pub fn placement_policy(distributed_stream: Option<&str>, even_spread: Option<&str>) -> (policy:
    PlacementPolicy)
    ensures
        policy == if (distributed_stream is Some && distributed_stream->0@ == "1"@) || (
        even_spread is Some && even_spread->0@ == "1"@) {
            PlacementPolicy::EvenSpread
        } else {
            PlacementPolicy::FillFirst
        },
{
    let distributed = match distributed_stream {
        Some(v) => text::str_eq(v, "1"),
        None => false,
    };
    let spread = match even_spread {
        Some(v) => text::str_eq(v, "1"),
        None => false,
    };
    if distributed || spread {
        PlacementPolicy::EvenSpread
    } else {
        PlacementPolicy::FillFirst
    }
}

impl View for TaskSet {
    type V = Seq<TaskSetEntry>;

    open spec fn view(&self) -> Seq<TaskSetEntry> {
        self.entries@
    }
}

impl View for TaskRegion {
    type V = Seq<(TaskPlacement, Seq<TaskSetEntry>)>;

    open spec fn view(&self) -> Seq<(TaskPlacement, Seq<TaskSetEntry>)> {
        self.tasks@.map_values(|t: (TaskPlacement, TaskSet)| (t.0, t.1@))
    }
}

/// A task set and the resource that runs it.
#[verifier::ext_equal]
pub struct PlacedSet {
    pub set: Seq<TaskSetEntry>,
    pub assignment: TaskAssignment,
}

impl View for TaskSetAssignment {
    type V = PlacedSet;

    open spec fn view(&self) -> PlacedSet {
        PlacedSet { set: self.set@, assignment: self.assignment }
    }
}

/// The placed sets of a vector of assignments.
pub open spec fn placed_sets(assignments: Seq<TaskSetAssignment>) -> Seq<PlacedSet> {
    assignments.map_values(|a: TaskSetAssignment| a@)
}

/// Whether a set has a task.
pub open spec fn set_has_task(set: Seq<TaskSetEntry>, key: TaskKey) -> bool {
    exists|i: int| 0 <= i < set.len() && (#[trigger] set[i]).key == key
}

/// Whether some set of a region has a task.
pub open spec fn region_has_task(
    region: Seq<(TaskPlacement, Seq<TaskSetEntry>)>,
    key: TaskKey,
) -> bool {
    exists|i: int| 0 <= i < region.len() && set_has_task((#[trigger] region[i]).1, key)
}

impl TaskSet {
    fn copy(&self) -> (set: TaskSet)
        ensures
            set@ == self@,
    {
        let mut entries: Vec<TaskSetEntry> = Vec::new();
        let mut i: usize = 0;
        while i < self.entries.len()
            invariant
                i <= self.entries@.len(),
                entries@ == self.entries@.take(i as int),
            decreases self.entries@.len() - i,
        {
            entries.push(self.entries[i]);
            i = i + 1;
            assert(entries@ =~= self.entries@.take(i as int));
        }
        assert(entries@ =~= self.entries@);
        TaskSet { entries }
    }

    /// Whether the set has a task.
    pub fn contains(&self, key: &TaskKey) -> (found: bool)
        ensures
            found == set_has_task(self@, *key),
    {
        let mut i: usize = 0;
        while i < self.entries.len()
            invariant
                i <= self.entries@.len(),
                forall|j: int| 0 <= j < i ==> (#[trigger] self.entries@[j]).key != *key,
            decreases self.entries@.len() - i,
        {
            if self.entries[i].key == *key {
                return true;
            }
            i = i + 1;
        }
        false
    }
}

impl TaskRegion {
    /// Whether some set of the region has a task.
    pub fn contains(&self, key: &TaskKey) -> (found: bool)
        ensures
            found == region_has_task(self@, *key),
    {
        let mut i: usize = 0;
        while i < self.tasks.len()
            invariant
                i <= self.tasks@.len(),
                forall|j: int| 0 <= j < i ==> !set_has_task((#[trigger] self@[j]).1, *key),
            decreases self.tasks@.len() - i,
        {
            assert(self@[i as int].1 == self.tasks@[i as int].1@);
            if self.tasks[i].1.contains(key) {
                return true;
            }
            i = i + 1;
        }
        false
    }
}

/// The tasks with one more, unless it is among them.
pub open spec fn with_task(tasks: Seq<TaskKey>, key: TaskKey) -> Seq<TaskKey> {
    if tasks.contains(key) {
        tasks
    } else {
        tasks.push(key)
    }
}

/// The tasks with those of a set, each once.
pub open spec fn with_tasks(tasks: Seq<TaskKey>, set: Seq<TaskSetEntry>) -> Seq<TaskKey>
    decreases set.len(),
{
    if set.len() == 0 {
        tasks
    } else {
        with_task(with_tasks(tasks, set.drop_last()), set.last().key)
    }
}

/// The tasks without one.
pub open spec fn without_task(tasks: Seq<TaskKey>, key: TaskKey) -> Seq<TaskKey> {
    tasks.filter(|k: TaskKey| k != key)
}

fn add_tasks(tasks: &mut Vec<TaskKey>, set: &TaskSet)
    ensures
        final(tasks)@ == with_tasks(old(tasks)@, set@),
{
    let mut i: usize = 0;
    assert(set@.take(0) =~= Seq::<TaskSetEntry>::empty());
    while i < set.entries.len()
        invariant
            i <= set.entries@.len(),
            tasks@ == with_tasks(old(tasks)@, set@.take(i as int)),
        decreases set.entries@.len() - i,
    {
        let key = set.entries[i].key;
        assert(set@.take(i + 1).drop_last() =~= set@.take(i as int));
        let mut found = false;
        let mut j: usize = 0;
        while j < tasks.len()
            invariant
                j <= tasks@.len(),
                found == tasks@.take(j as int).contains(key),
            decreases tasks@.len() - j,
        {
            if tasks[j] == key {
                found = true;
            }
            proof {
                let taken = tasks@.take(j + 1);
                let prev = tasks@.take(j as int);
                assert(taken =~= prev.push(tasks@[j as int]));
                if prev.contains(key) {
                    assert(taken[prev.index_of(key)] == key);
                }
                if tasks@[j as int] == key {
                    assert(taken[j as int] == key);
                }
                if taken.contains(key) && tasks@[j as int] != key {
                    assert(prev[taken.index_of(key)] == key);
                }
            }
            j = j + 1;
        }
        assert(tasks@.take(j as int) =~= tasks@);
        if !found {
            tasks.push(key);
        }
        i = i + 1;
    }
    assert(set@.take(i as int) =~= set@);
}

fn remove_key(tasks: &mut Vec<TaskKey>, key: &TaskKey)
    ensures
        final(tasks)@ == without_task(old(tasks)@, *key),
{
    let mut kept: Vec<TaskKey> = Vec::new();
    let mut i: usize = 0;
    reveal(Seq::filter);
    while i < tasks.len()
        invariant
            tasks@ == old(tasks)@,
            i <= tasks@.len(),
            kept@ == without_task(tasks@.take(i as int), *key),
        decreases tasks@.len() - i,
    {
        reveal(Seq::filter);
        assert(tasks@.take(i + 1).drop_last() =~= tasks@.take(i as int));
        let k = tasks[i];
        if k != *key {
            kept.push(k);
        }
        i = i + 1;
    }
    assert(tasks@.take(i as int) =~= tasks@);
    *tasks = kept;
}

/// A slot of a worker and the tasks that run in it.
#[derive(Debug)]
pub struct TaskSlot {
    tasks: Vec<TaskKey>,
}

impl View for TaskSlot {
    type V = Seq<TaskKey>;

    closed spec fn view(&self) -> Seq<TaskKey> {
        self.tasks@
    }
}

impl TaskSlot {
    /// A slot without tasks.
    pub fn new() -> (slot: Self)
        ensures
            slot@ == Seq::<TaskKey>::empty(),
    {
        TaskSlot { tasks: Vec::new() }
    }

    /// Whether no task runs in the slot.
    pub fn is_vacant(&self) -> (vacant: bool)
        ensures
            vacant == (self@.len() == 0),
    {
        self.tasks.len() == 0
    }
}

/// A worker and what it holds.
#[derive(Debug)]
pub enum WorkerResource {
    Active { task_slots: Vec<TaskSlot>, local_streams: StreamSet },
    Inactive,
}

/// A worker and what it holds.
#[verifier::ext_equal]
pub enum WorkerModel {
    Active { slots: Seq<Seq<TaskKey>>, local_streams: Seq<(u64, usize, usize, usize)> },
    Inactive,
}

/// The tasks of each slot.
pub open spec fn slot_tasks(slots: Seq<TaskSlot>) -> Seq<Seq<TaskKey>> {
    slots.map_values(|s: TaskSlot| s@)
}

impl View for WorkerResource {
    type V = WorkerModel;

    open spec fn view(&self) -> WorkerModel {
        match self {
            WorkerResource::Active { task_slots, local_streams } => WorkerModel::Active {
                slots: slot_tasks(task_slots@),
                local_streams: local_streams@,
            },
            WorkerResource::Inactive => WorkerModel::Inactive,
        }
    }
}

/// The streams with those of the tasks of a set whose output is of the given kind.
pub open spec fn with_set_streams(
    streams: Seq<(u64, usize, usize, usize)>,
    set: Seq<TaskSetEntry>,
    kind: TaskOutputKind,
) -> Seq<(u64, usize, usize, usize)>
    decreases set.len(),
{
    if set.len() == 0 {
        streams
    } else {
        let before = with_set_streams(streams, set.drop_last(), kind);
        if set.last().output == kind {
            with_stream(before, set.last().key)
        } else {
            before
        }
    }
}

fn track_set_streams(streams: &mut StreamSet, set: &TaskSet, kind: TaskOutputKind)
    ensures
        final(streams)@ == with_set_streams(old(streams)@, set@, kind),
{
    let mut i: usize = 0;
    assert(set@.take(0) =~= Seq::<TaskSetEntry>::empty());
    while i < set.entries.len()
        invariant
            i <= set.entries@.len(),
            streams@ == with_set_streams(old(streams)@, set@.take(i as int), kind),
        decreases set.entries@.len() - i,
    {
        assert(set@.take(i + 1).drop_last() =~= set@.take(i as int));
        let entry = set.entries[i];
        if entry.output == kind {
            streams.track(&entry.key);
        }
        i = i + 1;
    }
    assert(set@.take(i as int) =~= set@);
}

impl WorkerModel {
    /// The worker with the tasks of a set in one of its slots.
    pub open spec fn with_set(self, slot: usize, set: Seq<TaskSetEntry>) -> WorkerModel {
        match self {
            WorkerModel::Active { slots, local_streams } if slot < slots.len() =>
                WorkerModel::Active {
                    slots: slots.update(slot as int, with_tasks(slots[slot as int], set)),
                    local_streams,
                },
            _ => self,
        }
    }

    /// The worker without a task in one of its slots.
    pub open spec fn without_task(self, key: TaskKey, slot: usize) -> WorkerModel {
        match self {
            WorkerModel::Active { slots, local_streams } if slot < slots.len() =>
                WorkerModel::Active {
                    slots: slots.update(slot as int, without_task(slots[slot as int], key)),
                    local_streams,
                },
            _ => self,
        }
    }

    /// The worker with the local streams of a set.
    pub open spec fn with_local_streams(self, set: Seq<TaskSetEntry>) -> WorkerModel {
        match self {
            WorkerModel::Active { slots, local_streams } => WorkerModel::Active {
                slots,
                local_streams: with_set_streams(local_streams, set, TaskOutputKind::Local),
            },
            WorkerModel::Inactive => self,
        }
    }

    /// The worker without the local streams of a job, or of one stage of it.
    pub open spec fn without_local_streams(self, job_id: JobId, stage: Option<usize>) -> WorkerModel {
        match self {
            WorkerModel::Active { slots, local_streams } => WorkerModel::Active {
                slots,
                local_streams: without_streams(local_streams, job_id, stage),
            },
            WorkerModel::Inactive => self,
        }
    }

    /// Whether the worker is active and holds local streams of a job, or of one stage of it.
    pub open spec fn holds_local_streams(self, job_id: JobId, stage: Option<usize>) -> bool {
        match self {
            WorkerModel::Active { slots, local_streams } => holds_streams(
                local_streams,
                job_id,
                stage,
            ),
            WorkerModel::Inactive => false,
        }
    }

    /// The number of vacant slots.
    pub open spec fn vacant_slots(self) -> nat {
        match self {
            WorkerModel::Active { slots, local_streams } => slots.filter(
                |s: Seq<TaskKey>| s.len() == 0,
            ).len(),
            WorkerModel::Inactive => 0,
        }
    }

    /// The indices of the vacant slots below `n`, in increasing order.
    pub open spec fn vacant_below(self, n: nat) -> Seq<usize>
        decreases n,
    {
        match self {
            WorkerModel::Active { slots, local_streams } => if n == 0 {
                Seq::empty()
            } else {
                let before = self.vacant_below((n - 1) as nat);
                if slots[n - 1].len() == 0 {
                    before.push((n - 1) as usize)
                } else {
                    before
                }
            },
            WorkerModel::Inactive => Seq::empty(),
        }
    }

    /// The indices of the vacant slots, in increasing order.
    pub open spec fn vacant_indices(self) -> Seq<usize> {
        match self {
            WorkerModel::Active { slots, local_streams } => self.vacant_below(slots.len()),
            WorkerModel::Inactive => Seq::empty(),
        }
    }

    /// Whether the worker is active, runs no task and holds no stream.
    pub open spec fn idle(self) -> bool {
        match self {
            WorkerModel::Active { slots, local_streams } => local_streams.len() == 0 && forall|
                i: int,
            |
                0 <= i < slots.len() ==> (#[trigger] slots[i]).len() == 0,
            WorkerModel::Inactive => false,
        }
    }

    /// The tasks of all slots, slot by slot.
    pub open spec fn tasks(self) -> Seq<TaskKey> {
        match self {
            WorkerModel::Active { slots, local_streams } => slots.flatten(),
            WorkerModel::Inactive => Seq::empty(),
        }
    }
}

impl WorkerResource {
    fn add_task_set(&mut self, slot: usize, set: &TaskSet)
        ensures
            final(self)@ == old(self)@.with_set(slot, set@),
    {
        match self {
            WorkerResource::Active { task_slots, .. } => {
                if slot < task_slots.len() {
                    let ghost before = slot_tasks(task_slots@);
                    add_tasks(&mut task_slots[slot].tasks, set);
                    assert(slot_tasks(task_slots@) =~= before.update(
                        slot as int,
                        with_tasks(before[slot as int], set@),
                    ));
                }
            },
            WorkerResource::Inactive => {},
        }
    }

    fn remove_task(&mut self, key: &TaskKey, slot: usize)
        ensures
            final(self)@ == old(self)@.without_task(*key, slot),
    {
        match self {
            WorkerResource::Active { task_slots, .. } => {
                if slot < task_slots.len() {
                    let ghost before = slot_tasks(task_slots@);
                    remove_key(&mut task_slots[slot].tasks, key);
                    assert(slot_tasks(task_slots@) =~= before.update(
                        slot as int,
                        without_task(before[slot as int], *key),
                    ));
                }
            },
            WorkerResource::Inactive => {},
        }
    }

    fn track_local_streams(&mut self, set: &TaskSet)
        ensures
            final(self)@ == old(self)@.with_local_streams(set@),
    {
        match self {
            WorkerResource::Active { local_streams, .. } => {
                track_set_streams(local_streams, set, TaskOutputKind::Local);
            },
            WorkerResource::Inactive => {},
        }
    }

    fn untrack_local_streams(&mut self, job_id: JobId, stage: Option<usize>) -> (any: bool)
        ensures
            final(self)@ == old(self)@.without_local_streams(job_id, stage),
            any == old(self)@.holds_local_streams(job_id, stage),
    {
        match self {
            WorkerResource::Active { local_streams, .. } => local_streams.untrack(job_id, stage),
            WorkerResource::Inactive => false,
        }
    }

    fn vacant_slots(&self) -> (slots: Vec<usize>)
        ensures
            slots@ == self@.vacant_indices(),
    {
        let mut out: Vec<usize> = Vec::new();
        match self {
            WorkerResource::Active { task_slots, .. } => {
                let mut i: usize = 0;
                while i < task_slots.len()
                    invariant
                        i <= task_slots@.len(),
                        self@ is Active,
                        self@->slots == slot_tasks(task_slots@),
                        out@ == self@.vacant_below(i as nat),
                    decreases task_slots@.len() - i,
                {
                    if task_slots[i].is_vacant() {
                        out.push(i);
                    }
                    i = i + 1;
                }
            },
            WorkerResource::Inactive => {},
        }
        out
    }

    fn count_vacant(&self) -> (count: usize)
        ensures
            count == self@.vacant_slots(),
    {
        match self {
            WorkerResource::Active { task_slots, .. } => {
                let mut count: usize = 0;
                let mut i: usize = 0;
                let ghost all = slot_tasks(task_slots@);
                let ghost p = |s: Seq<TaskKey>| s.len() == 0;
                reveal(Seq::filter);
                while i < task_slots.len()
                    invariant
                        i <= task_slots@.len(),
                        all == slot_tasks(task_slots@),
                        p == (|s: Seq<TaskKey>| s.len() == 0),
                        count == all.take(i as int).filter(p).len(),
                        count <= i,
                    decreases task_slots@.len() - i,
                {
                    reveal(Seq::filter);
                    assert(all.take(i + 1).drop_last() =~= all.take(i as int));
                    if task_slots[i].is_vacant() {
                        count = count + 1;
                    }
                    i = i + 1;
                }
                assert(all.take(i as int) =~= all);
                count
            },
            WorkerResource::Inactive => 0,
        }
    }
}

/// The driver and what it holds.
#[derive(Debug)]
pub struct DriverResource {
    tasks: Vec<TaskKey>,
    local_streams: StreamSet,
    remote_streams: StreamSet,
}

/// The driver and what it holds.
#[verifier::ext_equal]
pub struct DriverModel {
    pub tasks: Seq<TaskKey>,
    pub local_streams: Seq<(u64, usize, usize, usize)>,
    pub remote_streams: Seq<(u64, usize, usize, usize)>,
}

impl View for DriverResource {
    type V = DriverModel;

    closed spec fn view(&self) -> DriverModel {
        DriverModel {
            tasks: self.tasks@,
            local_streams: self.local_streams@,
            remote_streams: self.remote_streams@,
        }
    }
}

/// The free slots of workers: for each worker the slots that can still be taken.
pub open spec fn slots_model(slots: Seq<(WorkerId, Vec<usize>)>) -> Seq<(WorkerId, Seq<usize>)> {
    slots.map_values(|e: (WorkerId, Vec<usize>)| (e.0, e.1@))
}

/// Whether some slot is free.
pub open spec fn has_free(slots: Seq<(WorkerId, Seq<usize>)>) -> bool {
    exists|i: int| 0 <= i < slots.len() && (#[trigger] slots[i]).1.len() > 0
}

/// Whether the policy takes the next slot from the `i`-th worker.
pub open spec fn is_chosen(
    slots: Seq<(WorkerId, Seq<usize>)>,
    policy: PlacementPolicy,
    i: int,
) -> bool {
    &&& 0 <= i < slots.len()
    &&& slots[i].1.len() > 0
    &&& match policy {
        PlacementPolicy::FillFirst => forall|j: int|
            0 <= j < i ==> (#[trigger] slots[j]).1.len() == 0,
        PlacementPolicy::EvenSpread => forall|j: int|
            0 <= j < slots.len() ==> (#[trigger] slots[j]).1.len() <= slots[i].1.len() && (j < i
                ==> slots[j].1.len() < slots[i].1.len()),
    }
}

/// The worker from which the policy takes the next slot.
pub open spec fn chosen(slots: Seq<(WorkerId, Seq<usize>)>, policy: PlacementPolicy) -> int {
    choose|i: int| is_chosen(slots, policy, i)
}

/// The free slots after the last slot of the `i`-th worker was taken.
pub open spec fn slots_after(slots: Seq<(WorkerId, Seq<usize>)>, i: int) -> Seq<
    (WorkerId, Seq<usize>),
> {
    slots.update(i, (slots[i].0, slots[i].1.drop_last()))
}

proof fn lemma_chosen(slots: Seq<(WorkerId, Seq<usize>)>, policy: PlacementPolicy, i: int)
    requires
        is_chosen(slots, policy, i),
    ensures
        chosen(slots, policy) == i,
{
    let j = chosen(slots, policy);
    assert(is_chosen(slots, policy, j));
    if i < j {
        assert(slots[i].1.len() > 0);
        assert(slots[j].1.len() > 0);
    } else if j < i {
        assert(slots[j].1.len() > 0);
        assert(slots[i].1.len() > 0);
    }
}

/// The workers with none of their slots free.
pub open spec fn emptied(slots: Seq<(WorkerId, Seq<usize>)>) -> Seq<(WorkerId, Seq<usize>)> {
    slots.map_values(|e: (WorkerId, Seq<usize>)| (e.0, Seq::<usize>::empty()))
}

/// The assignments of the sets of a region, taken in order, and the slots that are left; nothing
/// where the slots do not suffice.
pub open spec fn place_region(
    slots: Seq<(WorkerId, Seq<usize>)>,
    policy: PlacementPolicy,
    tasks: Seq<(TaskPlacement, Seq<TaskSetEntry>)>,
) -> Option<(Seq<PlacedSet>, Seq<(WorkerId, Seq<usize>)>)>
    decreases tasks.len(),
{
    if tasks.len() == 0 {
        Some((Seq::empty(), slots))
    } else {
        match place_region(slots, policy, tasks.drop_last()) {
            Some((done, left)) => match tasks.last().0 {
                TaskPlacement::Driver => Some(
                    (
                        done.push(
                            PlacedSet { set: tasks.last().1, assignment: TaskAssignment::Driver },
                        ),
                        left,
                    ),
                ),
                TaskPlacement::Worker => if has_free(left) {
                    let i = chosen(left, policy);
                    Some(
                        (
                            done.push(
                                PlacedSet {
                                    set: tasks.last().1,
                                    assignment: TaskAssignment::Worker {
                                        worker_id: left[i].0,
                                        slot: left[i].1.last(),
                                    },
                                },
                            ),
                            slots_after(left, i),
                        ),
                    )
                } else {
                    None
                },
            },
            None => None,
        }
    }
}

proof fn lemma_region_prefix_fails(
    slots: Seq<(WorkerId, Seq<usize>)>,
    policy: PlacementPolicy,
    tasks: Seq<(TaskPlacement, Seq<TaskSetEntry>)>,
    n: int,
)
    requires
        0 <= n <= tasks.len(),
        place_region(slots, policy, tasks.take(n)) is None,
    ensures
        place_region(slots, policy, tasks) is None,
    decreases tasks.len() - n,
{
    if n < tasks.len() {
        assert(tasks.take(n + 1).drop_last() =~= tasks.take(n));
        lemma_region_prefix_fails(slots, policy, tasks, n + 1);
    } else {
        assert(tasks.take(n) =~= tasks);
    }
}

/// The assignments of all sets of several regions, and the slots that are left; nothing where the
/// slots do not suffice.
pub open spec fn place_regions(
    slots: Seq<(WorkerId, Seq<usize>)>,
    policy: PlacementPolicy,
    regions: Seq<Seq<(TaskPlacement, Seq<TaskSetEntry>)>>,
) -> Option<(Seq<PlacedSet>, Seq<(WorkerId, Seq<usize>)>)>
    decreases regions.len(),
{
    if regions.len() == 0 {
        Some((Seq::empty(), slots))
    } else {
        match place_regions(slots, policy, regions.drop_last()) {
            Some((done, left)) => match place_region(left, policy, regions.last()) {
                Some((more, rest)) => Some((done + more, rest)),
                None => None,
            },
            None => None,
        }
    }
}

/// How many regions at the front of the queue can be placed.
pub open spec fn placeable(
    slots: Seq<(WorkerId, Seq<usize>)>,
    policy: PlacementPolicy,
    queue: Seq<Seq<(TaskPlacement, Seq<TaskSetEntry>)>>,
) -> nat
    decreases queue.len(),
{
    if queue.len() == 0 || place_regions(slots, policy, queue) is Some {
        queue.len()
    } else {
        placeable(slots, policy, queue.drop_last())
    }
}

proof fn lemma_placeable(
    slots: Seq<(WorkerId, Seq<usize>)>,
    policy: PlacementPolicy,
    queue: Seq<Seq<(TaskPlacement, Seq<TaskSetEntry>)>>,
    n: int,
)
    requires
        0 <= n <= queue.len(),
        place_regions(slots, policy, queue.take(n)) is Some,
        n < queue.len() ==> place_regions(slots, policy, queue.take(n + 1)) is None,
    ensures
        placeable(slots, policy, queue) == n,
    decreases queue.len(),
{
    if n == queue.len() {
        assert(queue.take(n) =~= queue);
    } else {
        lemma_regions_prefix_fails(slots, policy, queue, n + 1);
        let shorter = queue.drop_last();
        assert(shorter.take(n) =~= queue.take(n));
        if n < shorter.len() {
            assert(shorter.take(n + 1) =~= queue.take(n + 1));
        }
        lemma_placeable(slots, policy, shorter, n);
    }
}

proof fn lemma_regions_prefix_fails(
    slots: Seq<(WorkerId, Seq<usize>)>,
    policy: PlacementPolicy,
    regions: Seq<Seq<(TaskPlacement, Seq<TaskSetEntry>)>>,
    n: int,
)
    requires
        0 <= n <= regions.len(),
        place_regions(slots, policy, regions.take(n)) is None,
    ensures
        place_regions(slots, policy, regions) is None,
    decreases regions.len() - n,
{
    if n < regions.len() {
        assert(regions.take(n + 1).drop_last() =~= regions.take(n));
        lemma_regions_prefix_fails(slots, policy, regions, n + 1);
    } else {
        assert(regions.take(n) =~= regions);
    }
}

/// Hands out free worker slots to task sets.
#[derive(Debug)]
pub struct TaskSlotAssigner {
    slots: Vec<(WorkerId, Vec<usize>)>,
    policy: PlacementPolicy,
}

impl TaskSlotAssigner {
    /// The free slots of each worker.
    pub closed spec fn free(&self) -> Seq<(WorkerId, Seq<usize>)> {
        slots_model(self.slots@)
    }

    /// The policy.
    pub closed spec fn policy(&self) -> PlacementPolicy {
        self.policy
    }

    /// An assigner for the given free slots.
    pub fn new(slots: Vec<(WorkerId, Vec<usize>)>, policy: PlacementPolicy) -> (assigner: Self)
        ensures
            assigner.free() == slots_model(slots@),
            assigner.policy() == policy,
    {
        TaskSlotAssigner { slots, policy }
    }

    /// Takes the next free slot.
    pub fn next(&mut self) -> (slot: Option<(WorkerId, usize)>)
        ensures
            final(self).policy() == old(self).policy(),
            match slot {
                Some((worker_id, slot)) => {
                    let i = chosen(old(self).free(), old(self).policy());
                    &&& has_free(old(self).free())
                    &&& is_chosen(old(self).free(), old(self).policy(), i)
                    &&& worker_id == old(self).free()[i].0
                    &&& slot == old(self).free()[i].1.last()
                    &&& final(self).free() == slots_after(old(self).free(), i)
                },
                None => !has_free(old(self).free()) && final(self).free() == old(self).free(),
            },
    {
        let ghost free = self.free();
        let n: usize = self.slots.len();
        let mut best: Option<usize> = None;
        match self.policy {
            PlacementPolicy::FillFirst => {
                let mut i: usize = 0;
                while i < n && best.is_none()
                    invariant
                        n == self.slots@.len(),
                        i <= n,
                        free == slots_model(self.slots@),
                        match best {
                            Some(b) => is_chosen(free, PlacementPolicy::FillFirst, b as int),
                            None => forall|j: int| 0 <= j < i ==> (#[trigger] free[j]).1.len() == 0,
                        },
                    decreases n - i,
                {
                    assert(free[i as int].1 == self.slots@[i as int].1@);
                    if self.slots[i].1.len() > 0 {
                        best = Some(i);
                    }
                    i = i + 1;
                }
            },
            PlacementPolicy::EvenSpread => {
                let mut best_len: usize = 0;
                let mut i: usize = 0;
                while i < n
                    invariant
                        n == self.slots@.len(),
                        i <= n,
                        free == slots_model(self.slots@),
                        forall|j: int| 0 <= j < i ==> (#[trigger] free[j]).1.len() <= best_len,
                        match best {
                            Some(b) => b < i && free[b as int].1.len() == best_len && best_len > 0
                                && forall|j: int|
                                0 <= j < b ==> (#[trigger] free[j]).1.len() < best_len,
                            None => best_len == 0,
                        },
                    decreases n - i,
                {
                    assert(free[i as int].1 == self.slots@[i as int].1@);
                    let len: usize = self.slots[i].1.len();
                    if len > best_len {
                        best_len = len;
                        best = Some(i);
                    }
                    i = i + 1;
                }
                assert(best is Some ==> is_chosen(free, PlacementPolicy::EvenSpread, best->0 as int));
            },
        }
        match best {
            Some(i) => {
                proof {
                    lemma_chosen(free, self.policy, i as int);
                }
                assert(free[i as int].1.len() > 0);
                let worker_id = self.slots[i].0;
                let popped = self.slots[i].1.pop();
                assert(self.free() =~= slots_after(free, i as int));
                match popped {
                    Some(slot) => Some((worker_id, slot)),
                    None => None,
                }
            },
            None => None,
        }
    }

    /// Places all sets of a region, or hands the region back where the free slots do not suffice.
    pub fn try_assign_task_region(&mut self, region: TaskRegion) -> (result: Result<
        Vec<TaskSetAssignment>,
        TaskRegion,
    >)
        ensures
            final(self).policy() == old(self).policy(),
            match result {
                Ok(assignments) => place_region(old(self).free(), old(self).policy(), region@)
                    == Some((placed_sets(assignments@), final(self).free())),
                Err(back) => {
                    &&& back == region
                    &&& place_region(old(self).free(), old(self).policy(), region@) is None
                    &&& final(self).free() == emptied(old(self).free())
                },
            },
    {
        let ghost free = self.free();
        let ghost policy = self.policy();
        let ghost tasks = region@;
        let mut assignments: Vec<TaskSetAssignment> = Vec::new();
        let mut i: usize = 0;
        assert(placed_sets(assignments@) =~= Seq::<PlacedSet>::empty());
        assert(tasks.take(0) =~= Seq::<(TaskPlacement, Seq<TaskSetEntry>)>::empty());
        while i < region.tasks.len()
            invariant
                i <= region.tasks@.len(),
                tasks == region@,
                policy == self.policy(),
                free == old(self).free(),
                policy == old(self).policy(),
                self.free().len() == free.len(),
                forall|j: int| 0 <= j < free.len() ==> (#[trigger] self.free()[j]).0 == free[j].0,
                place_region(free, policy, tasks.take(i as int)) == Some(
                    (placed_sets(assignments@), self.free()),
                ),
            decreases region.tasks@.len() - i,
        {
            let ghost done = placed_sets(assignments@);
            let ghost left = self.free();
            proof {
                assert(tasks.take(i + 1).drop_last() =~= tasks.take(i as int));
                assert(tasks.take(i + 1).last() == tasks[i as int]);
                assert(tasks[i as int] == (region.tasks@[i as int].0, region.tasks@[i as int].1@));
            }
            let set = region.tasks[i].1.copy();
            match region.tasks[i].0 {
                TaskPlacement::Driver => {
                    let placed = TaskSetAssignment { set, assignment: TaskAssignment::Driver };
                    let ghost view = placed@;
                    assignments.push(placed);
                    assert(placed_sets(assignments@) =~= done.push(view));
                },
                TaskPlacement::Worker => {
                    match self.next() {
                        Some((worker_id, slot)) => {
                            let placed = TaskSetAssignment {
                                set,
                                assignment: TaskAssignment::Worker { worker_id, slot },
                            };
                            let ghost view = placed@;
                            assignments.push(placed);
                            assert(placed_sets(assignments@) =~= done.push(view));
                        },
                        None => {
                            proof {
                                assert(place_region(free, policy, tasks.take(i + 1)) is None);
                                lemma_region_prefix_fails(free, policy, tasks, i + 1);
                                assert forall|j: int| 0 <= j < free.len() implies #[trigger]
                                    self.free()[j] == emptied(free)[j] by {
                                    assert(self.free()[j].1.len() == 0);
                                    assert(self.free()[j].1 =~= Seq::<usize>::empty());
                                }
                                assert(self.free() =~= emptied(free));
                            }
                            return Err(region);
                        },
                    }
                },
            }
            i = i + 1;
        }
        assert(tasks.take(i as int) =~= tasks);
        Ok(assignments)
    }
}

/// The state of an assigner.
#[verifier::ext_equal]
pub struct AssignerModel {
    pub options: TaskAssignerOptions,
    pub driver: DriverModel,
    pub workers: Seq<(WorkerId, WorkerModel)>,
    pub requested: usize,
    pub assignments: Map<TaskKey, TaskAssignment>,
    pub queue: Seq<Seq<(TaskPlacement, Seq<TaskSetEntry>)>>,
}

/// The workers and what they hold.
pub open spec fn workers_model(workers: Seq<(WorkerId, WorkerResource)>) -> Seq<
    (WorkerId, WorkerModel),
> {
    workers.map_values(|w: (WorkerId, WorkerResource)| (w.0, w.1@))
}

/// The regions of a queue.
pub open spec fn regions_model(queue: Seq<TaskRegion>) -> Seq<
    Seq<(TaskPlacement, Seq<TaskSetEntry>)>,
> {
    queue.map_values(|r: TaskRegion| r@)
}

/// Whether a worker is known.
pub open spec fn has_worker(workers: Seq<(WorkerId, WorkerModel)>, id: WorkerId) -> bool {
    exists|i: int| 0 <= i < workers.len() && (#[trigger] workers[i]).0 == id
}

/// The position of a worker.
pub open spec fn worker_index(workers: Seq<(WorkerId, WorkerModel)>, id: WorkerId) -> int {
    choose|i: int| 0 <= i < workers.len() && (#[trigger] workers[i]).0 == id
}

/// Whether no worker is listed twice.
pub open spec fn distinct_workers(workers: Seq<(WorkerId, WorkerModel)>) -> bool {
    forall|i: int, j: int|
        0 <= i < workers.len() && 0 <= j < workers.len() && (#[trigger] workers[i]).0 == (
        #[trigger] workers[j]).0 ==> i == j
}

/// The queue without the regions that have a task.
pub open spec fn without_regions_of(
    queue: Seq<Seq<(TaskPlacement, Seq<TaskSetEntry>)>>,
    key: TaskKey,
) -> Seq<Seq<(TaskPlacement, Seq<TaskSetEntry>)>> {
    queue.filter(|r: Seq<(TaskPlacement, Seq<TaskSetEntry>)>| !region_has_task(r, key))
}

/// The number of sets of a region that need a worker slot.
pub open spec fn worker_sets(region: Seq<(TaskPlacement, Seq<TaskSetEntry>)>) -> nat {
    region.filter(|t: (TaskPlacement, Seq<TaskSetEntry>)| t.0 == TaskPlacement::Worker).len()
}

/// The number of sets of all regions that need a worker slot.
pub open spec fn enqueued_slots(queue: Seq<Seq<(TaskPlacement, Seq<TaskSetEntry>)>>) -> nat
    decreases queue.len(),
{
    if queue.len() == 0 {
        0
    } else {
        enqueued_slots(queue.drop_last()) + worker_sets(queue.last())
    }
}

/// The number of vacant slots of all workers.
pub open spec fn total_vacant(workers: Seq<(WorkerId, WorkerModel)>) -> nat
    decreases workers.len(),
{
    if workers.len() == 0 {
        0
    } else {
        total_vacant(workers.drop_last()) + workers.last().1.vacant_slots()
    }
}

/// The number of active workers.
pub open spec fn active_workers(workers: Seq<(WorkerId, WorkerModel)>) -> nat {
    workers.filter(|w: (WorkerId, WorkerModel)| w.1 is Active).len()
}

/// The vacant slots of each worker that has some, in the order of the workers.
pub open spec fn vacant_by_worker(workers: Seq<(WorkerId, WorkerModel)>) -> Seq<
    (WorkerId, Seq<usize>),
>
    decreases workers.len(),
{
    if workers.len() == 0 {
        Seq::empty()
    } else {
        let before = vacant_by_worker(workers.drop_last());
        if workers.last().1.vacant_indices().len() > 0 {
            before.push((workers.last().0, workers.last().1.vacant_indices()))
        } else {
            before
        }
    }
}

/// `a - b`, or zero where that is negative.
pub open spec fn minus(a: int, b: int) -> int {
    if a >= b {
        a - b
    } else {
        0
    }
}

/// The smallest number of groups of `size` that hold `n` items.
pub open spec fn groups_of(n: int, size: int) -> int {
    n / size + if n % size == 0 {
        0int
    } else {
        1int
    }
}

/// The tasks of a set, each with the given assignment.
pub open spec fn assign_set(set: Seq<TaskSetEntry>, assignment: TaskAssignment) -> Map<
    TaskKey,
    TaskAssignment,
> {
    Map::new(|k: TaskKey| set_has_task(set, k), |k: TaskKey| assignment)
}

impl AssignerModel {
    /// What every reachable state satisfies.
    pub open spec fn valid(self) -> bool {
        &&& distinct_workers(self.workers)
        &&& forall|i: int|
            0 <= i < self.workers.len() && (#[trigger] self.workers[i]).1 is Active
                ==> self.workers[i].1->slots.len() <= usize::MAX
    }

    /// How many workers to request for the queued tasks: enough for the tasks that exceed the
    /// vacant slots, within the limit on the number of workers.
    pub open spec fn workers_to_request(self) -> int {
        let required = groups_of(
            minus(enqueued_slots(self.queue) as int, total_vacant(self.workers) as int),
            self.options.worker_task_slots as int,
        );
        let allowed = if self.options.worker_max_count == 0 {
            usize::MAX as int
        } else {
            minus(
                minus(self.options.worker_max_count as int, self.requested as int),
                active_workers(self.workers) as int,
            )
        };
        if required < allowed {
            required
        } else {
            allowed
        }
    }

    /// The state with one request for a worker answered.
    pub open spec fn one_request_less(self) -> AssignerModel {
        AssignerModel { requested: minus(self.requested as int, 1) as usize, ..self }
    }

    /// The state with the tasks of one placed set running.
    pub open spec fn with_placed(self, placed: PlacedSet) -> AssignerModel {
        match placed.assignment {
            TaskAssignment::Driver => AssignerModel {
                driver: DriverModel {
                    tasks: with_tasks(self.driver.tasks, placed.set),
                    ..self.driver
                },
                assignments: self.assignments.union_prefer_right(
                    assign_set(placed.set, placed.assignment),
                ),
                ..self
            },
            TaskAssignment::Worker { worker_id, slot } => if has_worker(self.workers, worker_id) {
                let i = worker_index(self.workers, worker_id);
                AssignerModel {
                    workers: self.workers.update(
                        i,
                        (worker_id, self.workers[i].1.with_set(slot, placed.set)),
                    ),
                    assignments: self.assignments.union_prefer_right(
                        assign_set(placed.set, placed.assignment),
                    ),
                    ..self
                }
            } else {
                self
            },
        }
    }

    /// The state with the tasks of all placed sets running.
    pub open spec fn with_all_placed(self, placed: Seq<PlacedSet>) -> AssignerModel
        decreases placed.len(),
    {
        if placed.len() == 0 {
            self
        } else {
            self.with_all_placed(placed.drop_last()).with_placed(placed.last())
        }
    }

    /// How many regions at the front of the queue can be assigned now.
    pub open spec fn assignable(self) -> nat {
        placeable(vacant_by_worker(self.workers), self.options.placement, self.queue)
    }

    /// The assignments of the regions that can be assigned now.
    pub open spec fn assignment_of_queue(self) -> Seq<PlacedSet> {
        let placed = place_regions(
            vacant_by_worker(self.workers),
            self.options.placement,
            self.queue.take(self.assignable() as int),
        )->0;
        placed.0
    }

    /// The state after the regions that can be assigned now were assigned.
    pub open spec fn assigned(self) -> AssignerModel {
        AssignerModel { queue: self.queue.skip(self.assignable() as int), ..self }.with_all_placed(
            self.assignment_of_queue(),
        )
    }

    /// The state with the streams of one placed set recorded.
    pub open spec fn with_streams(self, placed: PlacedSet) -> AssignerModel {
        let driver = DriverModel {
            remote_streams: with_set_streams(
                self.driver.remote_streams,
                placed.set,
                TaskOutputKind::Remote,
            ),
            ..self.driver
        };
        match placed.assignment {
            TaskAssignment::Driver => AssignerModel {
                driver: DriverModel {
                    local_streams: with_set_streams(
                        driver.local_streams,
                        placed.set,
                        TaskOutputKind::Local,
                    ),
                    ..driver
                },
                ..self
            },
            TaskAssignment::Worker { worker_id, slot } => if has_worker(self.workers, worker_id) {
                let i = worker_index(self.workers, worker_id);
                AssignerModel {
                    driver,
                    workers: self.workers.update(
                        i,
                        (worker_id, self.workers[i].1.with_local_streams(placed.set)),
                    ),
                    ..self
                }
            } else {
                AssignerModel { driver, ..self }
            },
        }
    }

    /// The state with the streams of all placed sets recorded.
    pub open spec fn with_all_streams(self, placed: Seq<PlacedSet>) -> AssignerModel
        decreases placed.len(),
    {
        if placed.len() == 0 {
            self
        } else {
            self.with_all_streams(placed.drop_last()).with_streams(placed.last())
        }
    }

    /// The state without the local streams of a job, or of one stage of it.
    pub open spec fn without_local_streams(self, job_id: JobId, stage: Option<usize>) -> AssignerModel {
        AssignerModel {
            driver: DriverModel {
                local_streams: without_streams(self.driver.local_streams, job_id, stage),
                ..self.driver
            },
            workers: self.workers.map_values(
                |w: (WorkerId, WorkerModel)| (w.0, w.1.without_local_streams(job_id, stage)),
            ),
            ..self
        }
    }

    /// The resources that hold local streams of a job, or of one stage of it.
    pub open spec fn stream_holders(self, job_id: JobId, stage: Option<usize>) -> Seq<
        TaskStreamAssignment,
    > {
        (if holds_streams(self.driver.local_streams, job_id, stage) {
            seq![TaskStreamAssignment::Driver]
        } else {
            Seq::empty()
        }) + worker_holders(self.workers, job_id, stage)
    }
}

/// The active workers that hold local streams of a job, or of one stage of it.
pub open spec fn worker_holders(
    workers: Seq<(WorkerId, WorkerModel)>,
    job_id: JobId,
    stage: Option<usize>,
) -> Seq<TaskStreamAssignment>
    decreases workers.len(),
{
    if workers.len() == 0 {
        Seq::empty()
    } else {
        let before = worker_holders(workers.drop_last(), job_id, stage);
        if workers.last().1.holds_local_streams(job_id, stage) {
            before.push(TaskStreamAssignment::Worker { worker_id: workers.last().0 })
        } else {
            before
        }
    }
}

/// Assigns queued task regions to the driver and to the slots of the known workers.
#[derive(Debug)]
pub struct TaskAssigner {
    options: TaskAssignerOptions,
    driver: DriverResource,
    workers: Vec<(WorkerId, WorkerResource)>,
    requested_worker_count: usize,
    task_assignments: AssocMap<TaskKey, TaskAssignment>,
    task_queue: VecDeque<TaskRegion>,
}

impl View for TaskAssigner {
    type V = AssignerModel;

    closed spec fn view(&self) -> AssignerModel {
        AssignerModel {
            options: self.options,
            driver: self.driver@,
            workers: workers_model(self.workers@),
            requested: self.requested_worker_count,
            assignments: self.task_assignments@,
            queue: regions_model(self.task_queue@),
        }
    }
}

impl TaskAssigner {
    /// An assigner without workers and tasks.
    pub fn new(options: TaskAssignerOptions) -> (assigner: Self)
        ensures
            assigner@.valid(),
            assigner@ == (AssignerModel {
                options,
                driver: DriverModel {
                    tasks: Seq::empty(),
                    local_streams: Seq::empty(),
                    remote_streams: Seq::empty(),
                },
                workers: Seq::empty(),
                requested: 0,
                assignments: Map::empty(),
                queue: Seq::empty(),
            }),
    {
        let assigner = TaskAssigner {
            options,
            driver: DriverResource {
                tasks: Vec::new(),
                local_streams: StreamSet::new(),
                remote_streams: StreamSet::new(),
            },
            workers: Vec::new(),
            requested_worker_count: 0,
            task_assignments: AssocMap::new(),
            task_queue: VecDeque::new(),
        };
        assert(assigner@.workers =~= Seq::<(WorkerId, WorkerModel)>::empty());
        assert(assigner@.queue =~= Seq::<Seq<(TaskPlacement, Seq<TaskSetEntry>)>>::empty());
        assigner
    }

    fn find_worker(&self, worker_id: WorkerId) -> (found: Option<usize>)
        ensures
            match found {
                Some(i) => {
                    &&& i < self@.workers.len()
                    &&& self@.workers[i as int].0 == worker_id
                    &&& has_worker(self@.workers, worker_id)
                    &&& self@.valid() ==> worker_index(self@.workers, worker_id) == i
                },
                None => !has_worker(self@.workers, worker_id),
            },
    {
        let mut i: usize = 0;
        while i < self.workers.len()
            invariant
                i <= self.workers@.len(),
                forall|j: int| 0 <= j < i ==> (#[trigger] self@.workers[j]).0 != worker_id,
            decreases self.workers@.len() - i,
        {
            assert(self@.workers[i as int].0 == self.workers@[i as int].0);
            if self.workers[i].0 == worker_id {
                return Some(i);
            }
            i = i + 1;
        }
        None
    }

    fn count_enqueued(&self) -> (count: usize)
        requires
            enqueued_slots(self@.queue) <= usize::MAX,
        ensures
            count == enqueued_slots(self@.queue),
    {
        let mut count: usize = 0;
        let mut i: usize = 0;
        let ghost queue = self@.queue;
        assert(queue.take(0) =~= Seq::<Seq<(TaskPlacement, Seq<TaskSetEntry>)>>::empty());
        while i < self.task_queue.len()
            invariant
                i <= self.task_queue@.len(),
                queue == regions_model(self.task_queue@),
                count == enqueued_slots(queue.take(i as int)),
                enqueued_slots(queue) <= usize::MAX,
            decreases self.task_queue@.len() - i,
        {
            let region = &self.task_queue[i];
            let ghost tasks = region@;
            proof {
                assert(queue.take(i + 1).drop_last() =~= queue.take(i as int));
                assert(queue.take(i + 1).last() == tasks);
                lemma_enqueued_prefix(queue, i + 1);
            }
            let ghost p = |t: (TaskPlacement, Seq<TaskSetEntry>)| t.0 == TaskPlacement::Worker;
            let ghost before = count as nat;
            reveal(Seq::filter);
            let mut j: usize = 0;
            while j < region.tasks.len()
                invariant
                    j <= region.tasks@.len(),
                    tasks == region@,
                    p == (|t: (TaskPlacement, Seq<TaskSetEntry>)| t.0 == TaskPlacement::Worker),
                    count == before + tasks.take(j as int).filter(p).len(),
                    before + tasks.filter(p).len() <= usize::MAX,
                decreases region.tasks@.len() - j,
            {
                reveal(Seq::filter);
                assert(tasks.take(j + 1).drop_last() =~= tasks.take(j as int));
                assert(tasks[j as int].0 == region.tasks@[j as int].0);
                proof {
                    assert(tasks.take(j + 1) + tasks.skip(j + 1) =~= tasks);
                    Seq::filter_distributes_over_add(tasks.take(j + 1), tasks.skip(j + 1), p);
                }
                if region.tasks[j].0 == TaskPlacement::Worker {
                    count = count + 1;
                }
                j = j + 1;
            }
            assert(tasks.take(j as int) =~= tasks);
            i = i + 1;
        }
        assert(queue.take(i as int) =~= queue);
        count
    }

    fn count_vacant(&self) -> (count: usize)
        requires
            total_vacant(self@.workers) <= usize::MAX,
        ensures
            count == total_vacant(self@.workers),
    {
        let mut count: usize = 0;
        let mut i: usize = 0;
        let ghost workers = self@.workers;
        assert(workers.take(0) =~= Seq::<(WorkerId, WorkerModel)>::empty());
        while i < self.workers.len()
            invariant
                i <= self.workers@.len(),
                workers == workers_model(self.workers@),
                count == total_vacant(workers.take(i as int)),
                total_vacant(workers) <= usize::MAX,
            decreases self.workers@.len() - i,
        {
            proof {
                assert(workers.take(i + 1).drop_last() =~= workers.take(i as int));
                assert(workers.take(i + 1).last() == workers[i as int]);
                assert(workers[i as int].1 == self.workers@[i as int].1@);
                lemma_vacant_prefix(workers, i + 1);
            }
            count = count + self.workers[i].1.count_vacant();
            i = i + 1;
        }
        assert(workers.take(i as int) =~= workers);
        count
    }

    fn count_active(&self) -> (count: usize)
        ensures
            count == active_workers(self@.workers),
    {
        let mut count: usize = 0;
        let mut i: usize = 0;
        let ghost workers = self@.workers;
        let ghost p = |w: (WorkerId, WorkerModel)| w.1 is Active;
        reveal(Seq::filter);
        while i < self.workers.len()
            invariant
                i <= self.workers@.len(),
                workers == workers_model(self.workers@),
                p == (|w: (WorkerId, WorkerModel)| w.1 is Active),
                count == workers.take(i as int).filter(p).len(),
                count <= i,
            decreases self.workers@.len() - i,
        {
            reveal(Seq::filter);
            assert(workers.take(i + 1).drop_last() =~= workers.take(i as int));
            assert(workers[i as int].1 == self.workers@[i as int].1@);
            match &self.workers[i].1 {
                WorkerResource::Active { .. } => {
                    count = count + 1;
                },
                WorkerResource::Inactive => {},
            }
            i = i + 1;
        }
        assert(workers.take(i as int) =~= workers);
        count
    }

    /// Decides how many workers to request for the queued tasks, and counts them as requested.
    pub fn request_workers(&mut self) -> (count: usize)
        requires
            old(self)@.options.worker_task_slots > 0,
            enqueued_slots(old(self)@.queue) <= usize::MAX,
            total_vacant(old(self)@.workers) <= usize::MAX,
        ensures
            count == old(self)@.workers_to_request(),
            final(self)@ == (AssignerModel {
                requested: if old(self)@.requested + count <= usize::MAX {
                    (old(self)@.requested + count) as usize
                } else {
                    usize::MAX
                },
                ..old(self)@
            }),
    {
        let enqueued: usize = self.count_enqueued();
        let vacant: usize = self.count_vacant();
        let required_slots: usize = if enqueued >= vacant {
            enqueued - vacant
        } else {
            0
        };
        let active: usize = self.count_active();
        let allowed: usize = if self.options.worker_max_count == 0 {
            usize::MAX
        } else {
            let unrequested: usize = if self.options.worker_max_count
                >= self.requested_worker_count {
                self.options.worker_max_count - self.requested_worker_count
            } else {
                0
            };
            if unrequested >= active {
                unrequested - active
            } else {
                0
            }
        };
        let size: usize = self.options.worker_task_slots;
        let whole: usize = required_slots / size;
        proof {
            vstd::arithmetic::div_mod::lemma_fundamental_div_mod(
                required_slots as int,
                size as int,
            );
            assert(required_slots % size != 0 ==> whole < usize::MAX) by (nonlinear_arith)
                requires
                    size > 0,
                    whole == required_slots / size,
                    required_slots <= usize::MAX,
                    required_slots as int == size as int * (required_slots as int / size as int)
                        + required_slots as int % size as int,
            ;
        }
        let required: usize = if required_slots % size == 0 {
            whole
        } else {
            whole + 1
        };
        let count: usize = if required < allowed {
            required
        } else {
            allowed
        };
        self.requested_worker_count = if self.requested_worker_count <= usize::MAX - count {
            self.requested_worker_count + count
        } else {
            usize::MAX
        };
        count
    }

    /// Counts one requested worker as gone.
    pub fn track_worker_failed_to_start(&mut self)
        ensures
            final(self)@ == old(self)@.one_request_less(),
    {
        if self.requested_worker_count > 0 {
            self.requested_worker_count = self.requested_worker_count - 1;
        }
    }

    /// Adds a worker with vacant slots. A known worker stays as it is.
    pub fn activate_worker(&mut self, worker_id: WorkerId)
        requires
            old(self)@.valid(),
        ensures
            final(self)@.valid(),
            final(self)@ == if has_worker(old(self)@.workers, worker_id) {
                old(self)@.one_request_less()
            } else {
                AssignerModel {
                    workers: old(self)@.workers.push(
                        (
                            worker_id,
                            WorkerModel::Active {
                                slots: Seq::new(
                                    old(self)@.options.worker_task_slots as nat,
                                    |i: int| Seq::<TaskKey>::empty(),
                                ),
                                local_streams: Seq::empty(),
                            },
                        ),
                    ),
                    ..old(self)@.one_request_less()
                }
            },
    {
        self.track_worker_failed_to_start();
        if self.find_worker(worker_id).is_some() {
            return;
        }
        let mut task_slots: Vec<TaskSlot> = Vec::new();
        while task_slots.len() < self.options.worker_task_slots
            invariant
                task_slots@.len() <= self.options.worker_task_slots,
                forall|j: int|
                    0 <= j < task_slots@.len() ==> (#[trigger] task_slots@[j])@ == Seq::<
                        TaskKey,
                    >::empty(),
            decreases self.options.worker_task_slots - task_slots@.len(),
        {
            task_slots.push(TaskSlot::new());
        }
        let ghost slots = slot_tasks(task_slots@);
        proof {
            assert(slots =~= Seq::new(
                self.options.worker_task_slots as nat,
                |i: int| Seq::<TaskKey>::empty(),
            ));
        }
        let ghost before = self@.workers;
        self.workers.push(
            (worker_id, WorkerResource::Active { task_slots, local_streams: StreamSet::new() }),
        );
        assert(self@.workers =~= before.push(
            (
                worker_id,
                WorkerModel::Active { slots, local_streams: Seq::empty() },
            ),
        ));
        assert(distinct_workers(self@.workers)) by {
            let after = self@.workers;
            assert forall|i: int, j: int|
                0 <= i < after.len() && 0 <= j < after.len() && (#[trigger] after[i]).0 == (
                #[trigger] after[j]).0 implies i == j by {
                if i < before.len() {
                    assert(before[i].0 == after[i].0);
                }
                if j < before.len() {
                    assert(before[j].0 == after[j].0);
                }
            }
        }
    }

    /// Drops what an active worker holds and never gives it tasks again.
    pub fn deactivate_worker(&mut self, worker_id: WorkerId)
        requires
            old(self)@.valid(),
        ensures
            final(self)@.valid(),
            final(self)@ == if has_worker(old(self)@.workers, worker_id) {
                AssignerModel {
                    workers: old(self)@.workers.update(
                        worker_index(old(self)@.workers, worker_id),
                        (worker_id, WorkerModel::Inactive),
                    ),
                    ..old(self)@
                }
            } else {
                old(self)@
            },
    {
        if let Some(i) = self.find_worker(worker_id) {
            self.workers[i].1 = WorkerResource::Inactive;
            assert(self@.workers =~= old(self)@.workers.update(
                i as int,
                (worker_id, WorkerModel::Inactive),
            ));
        }
    }

    /// Appends a region to the queue.
    pub fn enqueue_tasks(&mut self, region: TaskRegion)
        ensures
            final(self)@ == (AssignerModel {
                queue: old(self)@.queue.push(region@),
                ..old(self)@
            }),
    {
        self.task_queue.push_back(region);
        assert(self@.queue =~= old(self)@.queue.push(region@));
    }

    /// Drops the queued regions that have a task.
    pub fn exclude_task(&mut self, key: &TaskKey)
        ensures
            final(self)@ == (AssignerModel {
                queue: without_regions_of(old(self)@.queue, *key),
                ..old(self)@
            }),
    {
        let ghost queue = self@.queue;
        let mut kept: VecDeque<TaskRegion> = VecDeque::new();
        let ghost mut n: int = 0;
        reveal(Seq::filter);
        assert(queue.skip(0) =~= queue);
        assert(regions_model(kept@) =~= without_regions_of(queue.take(0), *key));
        loop
            invariant
                self.options == old(self).options,
                self.driver == old(self).driver,
                self.workers == old(self).workers,
                self.requested_worker_count == old(self).requested_worker_count,
                self.task_assignments == old(self).task_assignments,
                queue == old(self)@.queue,
                0 <= n <= queue.len(),
                regions_model(self.task_queue@) == queue.skip(n),
                regions_model(kept@) == without_regions_of(queue.take(n), *key),
            ensures
                n == queue.len(),
            decreases self.task_queue@.len(),
        {
            let ghost rest = self.task_queue@;
            assert(regions_model(rest).len() == rest.len());
            let region = match self.task_queue.pop_front() {
                Some(region) => region,
                None => {
                    break;
                },
            };
            reveal(Seq::filter);
            let ghost before = regions_model(kept@);
            proof {
                assert(regions_model(rest)[0] == rest[0]@);
                assert(queue.skip(n)[0] == region@);
                assert(queue.take(n + 1).drop_last() =~= queue.take(n));
                let left = regions_model(self.task_queue@);
                assert forall|k: int| 0 <= k < left.len() implies #[trigger] left[k] == queue.skip(
                    n + 1,
                )[k] by {
                    assert(left[k] == rest[k + 1]@);
                    assert(regions_model(rest)[k + 1] == queue.skip(n)[k + 1]);
                }
                assert(left =~= queue.skip(n + 1));
            }
            if !region.contains(key) {
                let ghost view = region@;
                kept.push_back(region);
                assert(regions_model(kept@) =~= before.push(view));
            }
            proof {
                n = n + 1;
            }
        }
        assert(queue.take(n) =~= queue);
        self.task_queue = kept;
    }
}

impl TaskAssigner {
    /// The free slots of the workers, ready to be handed out.
    pub fn build_worker_task_slot_assigner(&self) -> (assigner: TaskSlotAssigner)
        ensures
            assigner.free() == vacant_by_worker(self@.workers),
            assigner.policy() == self@.options.placement,
    {
        let ghost workers = self@.workers;
        let mut slots: Vec<(WorkerId, Vec<usize>)> = Vec::new();
        let mut i: usize = 0;
        assert(workers.take(0) =~= Seq::<(WorkerId, WorkerModel)>::empty());
        assert(slots_model(slots@) =~= Seq::<(WorkerId, Seq<usize>)>::empty());
        while i < self.workers.len()
            invariant
                i <= self.workers@.len(),
                workers == workers_model(self.workers@),
                slots_model(slots@) == vacant_by_worker(workers.take(i as int)),
            decreases self.workers@.len() - i,
        {
            proof {
                assert(workers.take(i + 1).drop_last() =~= workers.take(i as int));
                assert(workers.take(i + 1).last() == workers[i as int]);
                assert(workers[i as int].1 == self.workers@[i as int].1@);
            }
            let ghost before = slots_model(slots@);
            let vacant = self.workers[i].1.vacant_slots();
            if vacant.len() > 0 {
                let ghost pair = (self.workers@[i as int].0, vacant@);
                slots.push((self.workers[i].0, vacant));
                assert(slots_model(slots@) =~= before.push(pair));
            }
            i = i + 1;
        }
        assert(workers.take(i as int) =~= workers);
        TaskSlotAssigner::new(slots, self.options.placement)
    }

    fn record_assignments(&mut self, set: &TaskSet, assignment: TaskAssignment)
        ensures
            final(self)@ == (AssignerModel {
                assignments: old(self)@.assignments.union_prefer_right(
                    assign_set(set@, assignment),
                ),
                ..old(self)@
            }),
    {
        let mut i: usize = 0;
        assert(self.task_assignments@ =~= self.task_assignments@.union_prefer_right(
            assign_set(set@.take(0), assignment),
        ));
        while i < set.entries.len()
            invariant
                i <= set.entries@.len(),
                self.options == old(self).options,
                self.driver == old(self).driver,
                self.workers == old(self).workers,
                self.requested_worker_count == old(self).requested_worker_count,
                self.task_queue == old(self).task_queue,
                self.task_assignments@ == old(self).task_assignments@.union_prefer_right(
                    assign_set(set@.take(i as int), assignment),
                ),
            decreases set.entries@.len() - i,
        {
            let key = set.entries[i].key;
            let ghost before = set@.take(i as int);
            let ghost after = set@.take(i + 1);
            self.task_assignments.insert(key, assignment);
            proof {
                assert(after =~= before.push(set@[i as int]));
                assert forall|k: TaskKey|
                    set_has_task(after, k) == (set_has_task(before, k) || k == key) by {
                    if set_has_task(before, k) {
                        let j = choose|j: int|
                            0 <= j < before.len() && (#[trigger] before[j]).key == k;
                        assert(after[j].key == k);
                    }
                    assert(after[i as int].key == key);
                    if set_has_task(after, k) && k != key {
                        let j = choose|j: int|
                            0 <= j < after.len() && (#[trigger] after[j]).key == k;
                        assert(before[j].key == k);
                    }
                }
                assert(self.task_assignments@ =~= old(self).task_assignments@.union_prefer_right(
                    assign_set(after, assignment),
                ));
            }
            i = i + 1;
        }
        assert(set@.take(i as int) =~= set@);
    }

    fn apply_assignment(&mut self, placed: &TaskSetAssignment)
        requires
            old(self)@.valid(),
        ensures
            final(self)@.valid(),
            final(self)@ == old(self)@.with_placed(placed@),
    {
        match placed.assignment {
            TaskAssignment::Driver => {
                add_tasks(&mut self.driver.tasks, &placed.set);
                self.record_assignments(&placed.set, placed.assignment);
            },
            TaskAssignment::Worker { worker_id, slot } => {
                if let Some(i) = self.find_worker(worker_id) {
                    self.workers[i].1.add_task_set(slot, &placed.set);
                    proof {
                        assert(self@.workers =~= old(self)@.workers.update(
                            i as int,
                            (
                                worker_id,
                                old(self)@.workers[i as int].1.with_set(slot, placed.set@),
                            ),
                        ));
                    }
                    self.record_assignments(&placed.set, placed.assignment);
                }
            },
        }
    }

    /// Assigns the regions at the front of the queue for which the vacant slots suffice, each as a
    /// whole and in their order. The first region that does not fit stays at the front.
    pub fn assign_tasks(&mut self) -> (assignments: Vec<TaskSetAssignment>)
        requires
            old(self)@.valid(),
        ensures
            final(self)@.valid(),
            placed_sets(assignments@) == old(self)@.assignment_of_queue(),
            final(self)@ == old(self)@.assigned(),
    {
        let ghost queue = self@.queue;
        let ghost free = vacant_by_worker(self@.workers);
        let ghost policy = self@.options.placement;
        let mut assignments: Vec<TaskSetAssignment> = Vec::new();
        let mut assigner = self.build_worker_task_slot_assigner();
        let ghost mut n: int = 0;
        proof {
            assert(queue.take(0) =~= Seq::<Seq<(TaskPlacement, Seq<TaskSetEntry>)>>::empty());
            assert(queue.skip(0) =~= queue);
            assert(placed_sets(assignments@) =~= Seq::<PlacedSet>::empty());
        }
        loop
            invariant_except_break
                assigner.policy() == policy,
                place_regions(free, policy, queue.take(n)) == Some(
                    (placed_sets(assignments@), assigner.free()),
                ),
            invariant
                self.options == old(self).options,
                self.driver == old(self).driver,
                self.workers == old(self).workers,
                self.requested_worker_count == old(self).requested_worker_count,
                self.task_assignments == old(self).task_assignments,
                queue == old(self)@.queue,
                free == vacant_by_worker(old(self)@.workers),
                policy == old(self)@.options.placement,
                0 <= n <= queue.len(),
                regions_model(self.task_queue@) == queue.skip(n),
            ensures
                n == placeable(free, policy, queue),
                place_regions(free, policy, queue.take(n)) is Some,
                ({
                    let placed = place_regions(free, policy, queue.take(n))->0;
                    placed.0 == placed_sets(assignments@)
                }),
            decreases self.task_queue@.len(),
        {
            let ghost rest = self.task_queue@;
            assert(regions_model(rest).len() == rest.len());
            let region = match self.task_queue.pop_front() {
                Some(region) => region,
                None => {
                    proof {
                        lemma_placeable(free, policy, queue, n);
                    }
                    break;
                },
            };
            proof {
                assert(regions_model(rest)[0] == rest[0]@);
                assert(queue.skip(n)[0] == queue[n]);
                assert(region@ == queue[n]);
                assert(queue.take(n + 1).drop_last() =~= queue.take(n));
                assert(queue.take(n + 1).last() == queue[n]);
            }
            let ghost done = placed_sets(assignments@);
            match assigner.try_assign_task_region(region) {
                Ok(mut placed) => {
                    let ghost more = placed_sets(placed@);
                    assignments.append(&mut placed);
                    proof {
                        assert(placed_sets(assignments@) =~= done + more);
                        let left = regions_model(self.task_queue@);
                        assert forall|k: int| 0 <= k < left.len() implies #[trigger] left[k]
                            == queue.skip(n + 1)[k] by {
                            assert(left[k] == rest[k + 1]@);
                            assert(regions_model(rest)[k + 1] == queue.skip(n)[k + 1]);
                        }
                        assert(left =~= queue.skip(n + 1));
                        n = n + 1;
                    }
                },
                Err(region) => {
                    self.task_queue.push_front(region);
                    proof {
                        assert(self.task_queue@ =~= rest);
                        assert(place_regions(free, policy, queue.take(n + 1)) is None);
                        lemma_placeable(free, policy, queue, n);
                    }
                    break;
                },
            }
        }
        let ghost start = self@;
        let ghost placed = placed_sets(assignments@);
        let mut i: usize = 0;
        assert(placed.take(0) =~= Seq::<PlacedSet>::empty());
        while i < assignments.len()
            invariant
                i <= assignments@.len(),
                placed == placed_sets(assignments@),
                self@.valid(),
                self@ == start.with_all_placed(placed.take(i as int)),
            decreases assignments@.len() - i,
        {
            proof {
                assert(placed.take(i + 1).drop_last() =~= placed.take(i as int));
                assert(placed.take(i + 1).last() == assignments@[i as int]@);
            }
            self.apply_assignment(&assignments[i]);
            i = i + 1;
        }
        assert(placed.take(i as int) =~= placed);
        assignments
    }

    /// Stops running a task on the resource that it is assigned to. Gives that resource, or
    /// nothing where the task was never assigned.
    pub fn unassign_task(&mut self, key: &TaskKey) -> (assignment: Option<TaskAssignment>)
        requires
            old(self)@.valid(),
        ensures
            final(self)@.valid(),
            ({
                let m = old(self)@;
                if !m.assignments.contains_key(*key) {
                    assignment is None && final(self)@ == m
                } else {
                    match m.assignments[*key] {
                        TaskAssignment::Driver => {
                            &&& assignment == Some(TaskAssignment::Driver)
                            &&& final(self)@ == (AssignerModel {
                                driver: DriverModel {
                                    tasks: without_task(m.driver.tasks, *key),
                                    ..m.driver
                                },
                                ..m
                            })
                        },
                        TaskAssignment::Worker { worker_id, slot } => if has_worker(
                            m.workers,
                            worker_id,
                        ) {
                            let i = worker_index(m.workers, worker_id);
                            &&& assignment == Some(m.assignments[*key])
                            &&& final(self)@ == (AssignerModel {
                                workers: m.workers.update(
                                    i,
                                    (worker_id, m.workers[i].1.without_task(*key, slot)),
                                ),
                                ..m
                            })
                        } else {
                            assignment is None && final(self)@ == m
                        },
                    }
                }
            }),
    {
        let assignment = match self.task_assignments.lookup(key) {
            Some(assignment) => *assignment,
            None => {
                return None;
            },
        };
        match assignment {
            TaskAssignment::Driver => {
                remove_key(&mut self.driver.tasks, key);
            },
            TaskAssignment::Worker { worker_id, slot } => {
                match self.find_worker(worker_id) {
                    Some(i) => {
                        self.workers[i].1.remove_task(key, slot);
                        assert(self@.workers =~= old(self)@.workers.update(
                            i as int,
                            (
                                worker_id,
                                old(self)@.workers[i as int].1.without_task(*key, slot),
                            ),
                        ));
                    },
                    None => {
                        return None;
                    },
                }
            },
        }
        Some(assignment)
    }

    fn track_set(&mut self, placed: &TaskSetAssignment)
        requires
            old(self)@.valid(),
        ensures
            final(self)@.valid(),
            final(self)@ == old(self)@.with_streams(placed@),
    {
        track_set_streams(&mut self.driver.remote_streams, &placed.set, TaskOutputKind::Remote);
        match placed.assignment {
            TaskAssignment::Driver => {
                track_set_streams(
                    &mut self.driver.local_streams,
                    &placed.set,
                    TaskOutputKind::Local,
                );
            },
            TaskAssignment::Worker { worker_id, .. } => {
                if let Some(i) = self.find_worker(worker_id) {
                    self.workers[i].1.track_local_streams(&placed.set);
                    assert(self@.workers =~= old(self)@.workers.update(
                        i as int,
                        (
                            worker_id,
                            old(self)@.workers[i as int].1.with_local_streams(placed.set@),
                        ),
                    ));
                }
            },
        }
    }

    /// Records which resource keeps the streams of the assigned tasks.
    pub fn track_streams(&mut self, assignments: &[TaskSetAssignment])
        requires
            old(self)@.valid(),
        ensures
            final(self)@.valid(),
            final(self)@ == old(self)@.with_all_streams(placed_sets(assignments@)),
    {
        let ghost placed = placed_sets(assignments@);
        let mut i: usize = 0;
        assert(placed.take(0) =~= Seq::<PlacedSet>::empty());
        while i < assignments.len()
            invariant
                i <= assignments@.len(),
                placed == placed_sets(assignments@),
                self@.valid(),
                self@ == old(self)@.with_all_streams(placed.take(i as int)),
            decreases assignments@.len() - i,
        {
            proof {
                assert(placed.take(i + 1).drop_last() =~= placed.take(i as int));
                assert(placed.take(i + 1).last() == assignments@[i as int]@);
            }
            self.track_set(&assignments[i]);
            i = i + 1;
        }
        assert(placed.take(i as int) =~= placed);
    }

    /// Drops the local streams of a job, or of one stage of it, and gives the resources that held
    /// some, each once.
    pub fn untrack_local_streams(&mut self, job_id: JobId, stage: Option<usize>) -> (holders: Vec<
        TaskStreamAssignment,
    >)
        requires
            old(self)@.valid(),
        ensures
            final(self)@.valid(),
            final(self)@ == old(self)@.without_local_streams(job_id, stage),
            holders@ == old(self)@.stream_holders(job_id, stage),
            holders@.no_duplicates(),
    {
        let ghost workers = self@.workers;
        let mut holders: Vec<TaskStreamAssignment> = Vec::new();
        if self.driver.local_streams.untrack(job_id, stage) {
            holders.push(TaskStreamAssignment::Driver);
        }
        let ghost first = holders@;
        let mut i: usize = 0;
        assert(workers.take(0) =~= Seq::<(WorkerId, WorkerModel)>::empty());
        assert(first + worker_holders(workers.take(0), job_id, stage) =~= first);
        while i < self.workers.len()
            invariant
                i <= self.workers@.len(),
                self.options == old(self).options,
                self.driver.tasks == old(self).driver.tasks,
                self.driver.remote_streams == old(self).driver.remote_streams,
                self.driver.local_streams@ == without_streams(
                    old(self).driver.local_streams@,
                    job_id,
                    stage,
                ),
                self.requested_worker_count == old(self).requested_worker_count,
                self.task_queue == old(self).task_queue,
                self.task_assignments == old(self).task_assignments,
                workers == old(self)@.workers,
                self.workers@.len() == workers.len(),
                forall|j: int|
                    0 <= j < i ==> #[trigger] self@.workers[j] == (
                        workers[j].0,
                        workers[j].1.without_local_streams(job_id, stage),
                    ),
                forall|j: int| i <= j < workers.len() ==> #[trigger] self@.workers[j] == workers[j],
                holders@ == first + worker_holders(workers.take(i as int), job_id, stage),
            decreases self.workers@.len() - i,
        {
            let ghost before = self@.workers;
            let ghost collected = worker_holders(workers.take(i as int), job_id, stage);
            let worker_id = self.workers[i].0;
            assert(before[i as int] == (worker_id, self.workers@[i as int].1@));
            proof {
                assert(workers.take(i + 1).drop_last() =~= workers.take(i as int));
                assert(workers.take(i + 1).last() == workers[i as int]);
            }
            if self.workers[i].1.untrack_local_streams(job_id, stage) {
                holders.push(TaskStreamAssignment::Worker { worker_id });
                assert(holders@ =~= first + collected.push(
                    TaskStreamAssignment::Worker { worker_id },
                ));
            }
            assert(self@.workers =~= before.update(
                i as int,
                (worker_id, before[i as int].1.without_local_streams(job_id, stage)),
            ));
            i = i + 1;
        }
        proof {
            assert(workers.take(i as int) =~= workers);
            assert(self@.workers =~= old(self)@.without_local_streams(job_id, stage).workers);
            lemma_holders_distinct(workers, job_id, stage);
        }
        holders
    }

    /// Drops the remote streams of a job, or of one stage of it, and says whether there were any.
    pub fn untrack_remote_streams(&mut self, job_id: JobId, stage: Option<usize>) -> (any: bool)
        ensures
            any == holds_streams(old(self)@.driver.remote_streams, job_id, stage),
            final(self)@ == (AssignerModel {
                driver: DriverModel {
                    remote_streams: without_streams(
                        old(self)@.driver.remote_streams,
                        job_id,
                        stage,
                    ),
                    ..old(self)@.driver
                },
                ..old(self)@
            }),
    {
        self.driver.remote_streams.untrack(job_id, stage)
    }

    /// Whether a worker is active, runs no task and keeps no stream.
    pub fn is_worker_idle(&self, worker_id: WorkerId) -> (idle: bool)
        requires
            self@.valid(),
        ensures
            idle == (has_worker(self@.workers, worker_id) && self@.workers[worker_index(
                self@.workers,
                worker_id,
            )].1.idle()),
    {
        match self.find_worker(worker_id) {
            Some(i) => {
                assert(self@.workers[i as int].1 == self.workers@[i as int].1@);
                match &self.workers[i].1 {
                    WorkerResource::Active { task_slots, local_streams } => {
                        let ghost slots = slot_tasks(task_slots@);
                        let mut j: usize = 0;
                        while j < task_slots.len()
                            invariant
                                j <= task_slots@.len(),
                                slots == slot_tasks(task_slots@),
                                worker_index(self@.workers, worker_id) == i,
                                self@.workers[i as int].1 is Active,
                                self@.workers[i as int].1->slots == slots,
                                forall|k: int| 0 <= k < j ==> (#[trigger] slots[k]).len() == 0,
                            decreases task_slots@.len() - j,
                        {
                            assert(slots[j as int] == task_slots@[j as int]@);
                            if !task_slots[j].is_vacant() {
                                return false;
                            }
                            j = j + 1;
                        }
                        local_streams.is_empty()
                    },
                    WorkerResource::Inactive => false,
                }
            },
            None => false,
        }
    }

    /// The tasks that run on a worker, slot by slot.
    pub fn find_worker_tasks(&self, worker_id: WorkerId) -> (tasks: Vec<TaskKey>)
        requires
            self@.valid(),
        ensures
            tasks@ == if has_worker(self@.workers, worker_id) {
                self@.workers[worker_index(self@.workers, worker_id)].1.tasks()
            } else {
                Seq::empty()
            },
    {
        let mut tasks: Vec<TaskKey> = Vec::new();
        if let Some(i) = self.find_worker(worker_id) {
            assert(self@.workers[i as int].1 == self.workers@[i as int].1@);
            match &self.workers[i].1 {
                WorkerResource::Active { task_slots, .. } => {
                    let ghost slots = slot_tasks(task_slots@);
                    let mut j: usize = 0;
                    assert(slots.take(0) =~= Seq::<Seq<TaskKey>>::empty());
                    while j < task_slots.len()
                        invariant
                            j <= task_slots@.len(),
                            slots == slot_tasks(task_slots@),
                            tasks@ == slots.take(j as int).flatten(),
                        decreases task_slots@.len() - j,
                    {
                        let ghost before = tasks@;
                        assert(slots[j as int] == task_slots@[j as int]@);
                        let slot = &task_slots[j].tasks;
                        let mut k: usize = 0;
                        assert(before + slot@.take(0) =~= before);
                        while k < slot.len()
                            invariant
                                k <= slot@.len(),
                                tasks@ == before + slot@.take(k as int),
                            decreases slot@.len() - k,
                        {
                            tasks.push(slot[k]);
                            k = k + 1;
                            assert(tasks@ =~= before + slot@.take(k as int));
                        }
                        proof {
                            assert(slot@.take(k as int) =~= slot@);
                            assert(slots.take(j + 1) =~= slots.take(j as int).push(slots[j as int]));
                            slots.take(j as int).lemma_flatten_push(slots[j as int]);
                        }
                        j = j + 1;
                    }
                    assert(slots.take(j as int) =~= slots);
                },
                WorkerResource::Inactive => {},
            }
        }
        tasks
    }

    /// The resource that a task was last assigned to.
    pub fn get(&self, key: &TaskKey) -> (assignment: Option<&TaskAssignment>)
        ensures
            match assignment {
                Some(a) => self@.assignments.contains_key(*key) && self@.assignments[*key] == *a,
                None => !self@.assignments.contains_key(*key),
            },
    {
        self.task_assignments.lookup(key)
    }
}

proof fn lemma_holders_are_workers(
    workers: Seq<(WorkerId, WorkerModel)>,
    job_id: JobId,
    stage: Option<usize>,
    k: int,
)
    requires
        0 <= k < worker_holders(workers, job_id, stage).len(),
    ensures
        exists|i: int|
            0 <= i < workers.len() && worker_holders(workers, job_id, stage)[k]
                == (TaskStreamAssignment::Worker { worker_id: (#[trigger] workers[i]).0 }),
    decreases workers.len(),
{
    let prior = workers.drop_last();
    let before = worker_holders(prior, job_id, stage);
    if k < before.len() {
        lemma_holders_are_workers(prior, job_id, stage, k);
        let i = choose|i: int|
            0 <= i < prior.len() && before[k] == (TaskStreamAssignment::Worker {
                worker_id: (#[trigger] prior[i]).0,
            });
        assert(workers[i].0 == prior[i].0);
    } else {
        assert(workers[workers.len() - 1].0 == workers.last().0);
    }
}

proof fn lemma_holders_distinct(
    workers: Seq<(WorkerId, WorkerModel)>,
    job_id: JobId,
    stage: Option<usize>,
)
    requires
        distinct_workers(workers),
    ensures
        worker_holders(workers, job_id, stage).no_duplicates(),
        !worker_holders(workers, job_id, stage).contains(TaskStreamAssignment::Driver),
    decreases workers.len(),
{
    let all = worker_holders(workers, job_id, stage);
    if workers.len() > 0 {
        let prior = workers.drop_last();
        let before = worker_holders(prior, job_id, stage);
        assert(distinct_workers(prior)) by {
            assert forall|i: int, j: int|
                0 <= i < prior.len() && 0 <= j < prior.len() && (#[trigger] prior[i]).0 == (
                #[trigger] prior[j]).0 implies i == j by {
                assert(workers[i].0 == workers[j].0);
            }
        }
        lemma_holders_distinct(prior, job_id, stage);
        if workers.last().1.holds_local_streams(job_id, stage) {
            let last = TaskStreamAssignment::Worker { worker_id: workers.last().0 };
            assert forall|k: int| 0 <= k < before.len() implies before[k] != last by {
                lemma_holders_are_workers(prior, job_id, stage, k);
                let i = choose|i: int|
                    0 <= i < prior.len() && before[k] == (TaskStreamAssignment::Worker {
                        worker_id: (#[trigger] prior[i]).0,
                    });
                assert(workers[i].0 == prior[i].0);
                assert(workers[workers.len() - 1].0 == workers.last().0);
            }
        }
    }
    assert forall|k: int| 0 <= k < all.len() implies #[trigger] all[k]
        != TaskStreamAssignment::Driver by {
        lemma_holders_are_workers(workers, job_id, stage, k);
    }
}

proof fn lemma_enqueued_prefix(queue: Seq<Seq<(TaskPlacement, Seq<TaskSetEntry>)>>, n: int)
    requires
        0 <= n <= queue.len(),
    ensures
        enqueued_slots(queue.take(n)) <= enqueued_slots(queue),
    decreases queue.len() - n,
{
    if n < queue.len() {
        lemma_enqueued_prefix(queue, n + 1);
        assert(queue.take(n + 1).drop_last() =~= queue.take(n));
    } else {
        assert(queue.take(n) =~= queue);
    }
}

proof fn lemma_vacant_prefix(workers: Seq<(WorkerId, WorkerModel)>, n: int)
    requires
        0 <= n <= workers.len(),
    ensures
        total_vacant(workers.take(n)) <= total_vacant(workers),
    decreases workers.len() - n,
{
    if n < workers.len() {
        lemma_vacant_prefix(workers, n + 1);
        assert(workers.take(n + 1).drop_last() =~= workers.take(n));
    } else {
        assert(workers.take(n) =~= workers);
    }
}

/// Whether a slot of a worker is among the free ones.
pub open spec fn slot_free(
    slots: Seq<(WorkerId, Seq<usize>)>,
    worker_id: WorkerId,
    slot: usize,
) -> bool {
    exists|i: int|
        0 <= i < slots.len() && (#[trigger] slots[i]).0 == worker_id && slots[i].1.contains(slot)
}

/// Whether no slot is listed twice.
pub open spec fn distinct_slots(slots: Seq<(WorkerId, Seq<usize>)>) -> bool {
    &&& forall|i: int, j: int|
        0 <= i < slots.len() && 0 <= j < slots.len() && (#[trigger] slots[i]).0 == (
        #[trigger] slots[j]).0 ==> i == j
    &&& forall|i: int| 0 <= i < slots.len() ==> (#[trigger] slots[i]).1.no_duplicates()
}

/// Whether a slot of a worker is given to a placed set.
pub open spec fn takes_slot(placed: PlacedSet, worker_id: WorkerId, slot: usize) -> bool {
    placed.assignment == (TaskAssignment::Worker { worker_id, slot })
}

/// Whether the placed sets take distinct slots, each of them free in `before` and none in `after`.
pub open spec fn takes_free_slots(
    placed: Seq<PlacedSet>,
    before: Seq<(WorkerId, Seq<usize>)>,
    after: Seq<(WorkerId, Seq<usize>)>,
) -> bool {
    &&& forall|k: int, w: WorkerId, s: usize|
        0 <= k < placed.len() && #[trigger] takes_slot(placed[k], w, s) ==> slot_free(before, w, s)
            && !slot_free(after, w, s)
    &&& forall|j: int, k: int, w: WorkerId, s: usize|
        0 <= j < placed.len() && 0 <= k < placed.len() && #[trigger] takes_slot(placed[j], w, s)
            && #[trigger] takes_slot(placed[k], w, s) ==> j == k
    &&& forall|w: WorkerId, s: usize| #[trigger]
        slot_free(after, w, s) ==> slot_free(before, w, s)
}

proof fn lemma_slots_after(slots: Seq<(WorkerId, Seq<usize>)>, i: int)
    requires
        distinct_slots(slots),
        0 <= i < slots.len(),
        slots[i].1.len() > 0,
    ensures
        distinct_slots(slots_after(slots, i)),
        slot_free(slots, slots[i].0, slots[i].1.last()),
        forall|w: WorkerId, s: usize| #[trigger]
            slot_free(slots_after(slots, i), w, s) <==> slot_free(slots, w, s) && !(w == slots[i].0
                && s == slots[i].1.last()),
{
    let after = slots_after(slots, i);
    let all = slots[i].1;
    assert(all.contains(all.last())) by {
        assert(all[all.len() - 1] == all.last());
    }
    assert forall|x: int, y: int|
        0 <= x < after.len() && 0 <= y < after.len() && (#[trigger] after[x]).0 == (
        #[trigger] after[y]).0 implies x == y by {
        assert(slots[x].0 == slots[y].0);
    }
    assert forall|x: int| 0 <= x < after.len() implies (#[trigger] after[x]).1.no_duplicates() by {
        assert(slots[x].1.no_duplicates());
    }
    assert forall|w: WorkerId, s: usize| #[trigger]
        slot_free(after, w, s) <==> slot_free(slots, w, s) && !(w == slots[i].0 && s
            == all.last()) by {
        if slot_free(after, w, s) {
            let j = choose|j: int|
                0 <= j < after.len() && (#[trigger] after[j]).0 == w && after[j].1.contains(s);
            assert(slots[j].0 == w);
            let k = after[j].1.index_of(s);
            assert(slots[j].1[k] == s);
            assert(slots[j].1.contains(s));
            if w == slots[i].0 {
                assert(j == i);
                assert(slots[i].1.no_duplicates());
                assert(all[k] != all[all.len() - 1]);
            }
        }
        if slot_free(slots, w, s) && !(w == slots[i].0 && s == all.last()) {
            let j = choose|j: int|
                0 <= j < slots.len() && (#[trigger] slots[j]).0 == w && slots[j].1.contains(s);
            let k = slots[j].1.index_of(s);
            assert(after[j].0 == w);
            assert(after[j].1[k] == s);
            assert(after[j].1.contains(s));
        }
    }
}

proof fn lemma_region_takes_free_slots(
    slots: Seq<(WorkerId, Seq<usize>)>,
    policy: PlacementPolicy,
    tasks: Seq<(TaskPlacement, Seq<TaskSetEntry>)>,
)
    requires
        distinct_slots(slots),
        place_region(slots, policy, tasks) is Some,
    ensures
        ({
            let placed = place_region(slots, policy, tasks)->0;
            takes_free_slots(placed.0, slots, placed.1) && distinct_slots(placed.1)
        }),
    decreases tasks.len(),
{
    if tasks.len() > 0 {
        lemma_region_takes_free_slots(slots, policy, tasks.drop_last());
        let before = place_region(slots, policy, tasks.drop_last())->0;
        let after = place_region(slots, policy, tasks)->0;
        let done = before.0;
        let left = before.1;
        assert(after.0.drop_last() =~= done);
        match tasks.last().0 {
            TaskPlacement::Driver => {
                assert forall|k: int, w: WorkerId, s: usize|
                    0 <= k < after.0.len() && #[trigger] takes_slot(after.0[k], w, s) implies k
                    < done.len() && takes_slot(done[k], w, s) by {
                    if k < done.len() {
                        assert(after.0[k] == done[k]);
                    }
                }
            },
            TaskPlacement::Worker => {
                let i = chosen(left, policy);
                lemma_chosen_exists(left, policy);
                lemma_slots_after(left, i);
                assert forall|k: int, w: WorkerId, s: usize|
                    0 <= k < after.0.len() && #[trigger] takes_slot(
                        after.0[k],
                        w,
                        s,
                    ) implies slot_free(slots, w, s) && !slot_free(after.1, w, s) by {
                    if k < done.len() {
                        assert(after.0[k] == done[k]);
                        assert(takes_slot(done[k], w, s));
                    } else {
                        assert(slot_free(left, w, s));
                    }
                }
                assert forall|j: int, k: int, w: WorkerId, s: usize|
                    0 <= j < after.0.len() && 0 <= k < after.0.len() && #[trigger] takes_slot(
                        after.0[j],
                        w,
                        s,
                    ) && #[trigger] takes_slot(after.0[k], w, s) implies j == k by {
                    if j < done.len() {
                        assert(takes_slot(done[j], w, s));
                    }
                    if k < done.len() {
                        assert(takes_slot(done[k], w, s));
                    }
                }
            },
        }
    }
}

proof fn lemma_chosen_exists(slots: Seq<(WorkerId, Seq<usize>)>, policy: PlacementPolicy)
    requires
        has_free(slots),
    ensures
        is_chosen(slots, policy, chosen(slots, policy)),
{
    let i = match policy {
        PlacementPolicy::FillFirst => lemma_first_free(slots, slots.len() as int),
        PlacementPolicy::EvenSpread => lemma_emptiest(slots, slots.len() as int),
    };
    assert(is_chosen(slots, policy, i));
}

proof fn lemma_first_free(slots: Seq<(WorkerId, Seq<usize>)>, n: int) -> (i: int)
    requires
        0 <= n <= slots.len(),
        exists|j: int| 0 <= j < n && (#[trigger] slots[j]).1.len() > 0,
    ensures
        0 <= i < n,
        slots[i].1.len() > 0,
        forall|j: int| 0 <= j < i ==> (#[trigger] slots[j]).1.len() == 0,
    decreases n,
{
    if exists|j: int| 0 <= j < n - 1 && (#[trigger] slots[j]).1.len() > 0 {
        lemma_first_free(slots, n - 1)
    } else {
        n - 1
    }
}

proof fn lemma_emptiest(slots: Seq<(WorkerId, Seq<usize>)>, n: int) -> (i: int)
    requires
        0 <= n <= slots.len(),
        exists|j: int| 0 <= j < n && (#[trigger] slots[j]).1.len() > 0,
    ensures
        0 <= i < n,
        slots[i].1.len() > 0,
        forall|j: int|
            0 <= j < n ==> (#[trigger] slots[j]).1.len() <= slots[i].1.len() && (j < i
                ==> slots[j].1.len() < slots[i].1.len()),
    decreases n,
{
    if exists|j: int| 0 <= j < n - 1 && (#[trigger] slots[j]).1.len() > 0 {
        let i = lemma_emptiest(slots, n - 1);
        if slots[n - 1].1.len() > slots[i].1.len() {
            n - 1
        } else {
            i
        }
    } else {
        n - 1
    }
}

proof fn lemma_regions_take_free_slots(
    slots: Seq<(WorkerId, Seq<usize>)>,
    policy: PlacementPolicy,
    regions: Seq<Seq<(TaskPlacement, Seq<TaskSetEntry>)>>,
)
    requires
        distinct_slots(slots),
        place_regions(slots, policy, regions) is Some,
    ensures
        ({
            let placed = place_regions(slots, policy, regions)->0;
            takes_free_slots(placed.0, slots, placed.1) && distinct_slots(placed.1)
        }),
    decreases regions.len(),
{
    if regions.len() > 0 {
        lemma_regions_take_free_slots(slots, policy, regions.drop_last());
        let before = place_regions(slots, policy, regions.drop_last())->0;
        let done = before.0;
        let left = before.1;
        lemma_region_takes_free_slots(left, policy, regions.last());
        let region = place_region(left, policy, regions.last())->0;
        let more = region.0;
        let rest = region.1;
        let all = done + more;
        assert forall|k: int, w: WorkerId, s: usize|
            0 <= k < all.len() && #[trigger] takes_slot(all[k], w, s) implies slot_free(slots, w, s)
            && !slot_free(rest, w, s) by {
            if k < done.len() {
                assert(takes_slot(done[k], w, s));
            } else {
                assert(takes_slot(more[k - done.len()], w, s));
            }
        }
        assert forall|j: int, k: int, w: WorkerId, s: usize|
            0 <= j < all.len() && 0 <= k < all.len() && #[trigger] takes_slot(all[j], w, s)
                && #[trigger] takes_slot(all[k], w, s) implies j == k by {
            if j < done.len() {
                assert(takes_slot(done[j], w, s));
            } else {
                assert(takes_slot(more[j - done.len()], w, s));
            }
            if k < done.len() {
                assert(takes_slot(done[k], w, s));
            } else {
                assert(takes_slot(more[k - done.len()], w, s));
            }
        }
    }
}

proof fn lemma_vacant_below(worker: WorkerModel, n: nat)
    requires
        worker is Active,
        n <= worker->slots.len(),
        n <= usize::MAX,
    ensures
        worker.vacant_below(n).no_duplicates(),
        forall|k: int|
            0 <= k < worker.vacant_below(n).len() ==> {
                let s = #[trigger] worker.vacant_below(n)[k];
                s < n && worker->slots[s as int].len() == 0
            },
    decreases n,
{
    if n > 0 {
        lemma_vacant_below(worker, (n - 1) as nat);
    }
}

/// Whether a slot of a worker is vacant.
pub open spec fn slot_vacant(
    workers: Seq<(WorkerId, WorkerModel)>,
    worker_id: WorkerId,
    slot: usize,
) -> bool {
    exists|i: int|
        0 <= i < workers.len() && (#[trigger] workers[i]).0 == worker_id && workers[i].1 is Active
            && slot < workers[i].1->slots.len() && workers[i].1->slots[slot as int].len() == 0
}

proof fn lemma_vacant_by_worker(workers: Seq<(WorkerId, WorkerModel)>)
    requires
        distinct_workers(workers),
        forall|i: int|
            0 <= i < workers.len() && (#[trigger] workers[i]).1 is Active ==> workers[i].1->slots.len()
                <= usize::MAX,
    ensures
        distinct_slots(vacant_by_worker(workers)),
        forall|k: int|
            0 <= k < vacant_by_worker(workers).len() ==> exists|i: int|
                0 <= i < workers.len() && (#[trigger] workers[i]).0 == (
                #[trigger] vacant_by_worker(workers)[k]).0 && vacant_by_worker(workers)[k].1
                    == workers[i].1.vacant_indices(),
    decreases workers.len(),
{
    if workers.len() > 0 {
        let prior = workers.drop_last();
        let before = vacant_by_worker(prior);
        let all = vacant_by_worker(workers);
        assert(distinct_workers(prior)) by {
            assert forall|i: int, j: int|
                0 <= i < prior.len() && 0 <= j < prior.len() && (#[trigger] prior[i]).0 == (
                #[trigger] prior[j]).0 implies i == j by {
                assert(workers[i].0 == workers[j].0);
            }
        }
        assert forall|i: int|
            0 <= i < prior.len() && (#[trigger] prior[i]).1 is Active implies prior[i].1->slots.len()
            <= usize::MAX by {
            assert(workers[i].1 is Active);
        }
        lemma_vacant_by_worker(prior);
        if workers[workers.len() - 1].1 is Active {
            lemma_vacant_below(workers.last().1, workers.last().1->slots.len());
        }
        assert forall|k: int| 0 <= k < all.len() implies exists|i: int|
            0 <= i < workers.len() && (#[trigger] workers[i]).0 == (#[trigger] all[k]).0 && all[k].1
                == workers[i].1.vacant_indices() && (k < before.len() ==> i < prior.len()) && (k
                >= before.len() ==> i == prior.len()) by {
            if k < before.len() {
                assert(all[k] == before[k]);
                let i = choose|i: int|
                    0 <= i < prior.len() && (#[trigger] prior[i]).0 == before[k].0 && before[k].1
                        == prior[i].1.vacant_indices();
                assert(workers[i].0 == all[k].0);
            } else {
                assert(workers[workers.len() - 1].0 == all[k].0);
            }
        }
        assert forall|x: int, y: int|
            0 <= x < all.len() && 0 <= y < all.len() && (#[trigger] all[x]).0 == (
            #[trigger] all[y]).0 implies x == y by {
            if x < before.len() && y < before.len() {
                assert(before[x].0 == before[y].0);
            } else if x < before.len() {
                let i = choose|i: int|
                    0 <= i < prior.len() && (#[trigger] prior[i]).0 == before[x].0 && before[x].1
                        == prior[i].1.vacant_indices();
                assert(workers[i].0 == workers[workers.len() - 1].0);
            } else if y < before.len() {
                let i = choose|i: int|
                    0 <= i < prior.len() && (#[trigger] prior[i]).0 == before[y].0 && before[y].1
                        == prior[i].1.vacant_indices();
                assert(workers[i].0 == workers[workers.len() - 1].0);
            }
        }
        assert forall|x: int| 0 <= x < all.len() implies (#[trigger] all[x]).1.no_duplicates() by {
            if x < before.len() {
                assert(all[x] == before[x]);
            }
        }
    }
}

/// Every worker slot that an assignment hands out was vacant, and none is handed out twice.
pub proof fn law_assigned_slots_are_vacant_and_distinct(m: AssignerModel)
    requires
        m.valid(),
    ensures
        forall|k: int, w: WorkerId, s: usize|
            0 <= k < m.assignment_of_queue().len() && #[trigger] takes_slot(
                m.assignment_of_queue()[k],
                w,
                s,
            ) ==> slot_vacant(m.workers, w, s),
        forall|j: int, k: int, w: WorkerId, s: usize|
            0 <= j < m.assignment_of_queue().len() && 0 <= k < m.assignment_of_queue().len()
                && #[trigger] takes_slot(m.assignment_of_queue()[j], w, s) && #[trigger] takes_slot(
                m.assignment_of_queue()[k],
                w,
                s,
            ) ==> j == k,
{
    let free = vacant_by_worker(m.workers);
    let policy = m.options.placement;
    law_regions_are_assigned_whole_and_in_order(m);
    lemma_vacant_by_worker(m.workers);
    lemma_regions_take_free_slots(free, policy, m.queue.take(m.assignable() as int));
    assert forall|k: int, w: WorkerId, s: usize|
        0 <= k < m.assignment_of_queue().len() && #[trigger] takes_slot(
            m.assignment_of_queue()[k],
            w,
            s,
        ) implies slot_vacant(m.workers, w, s) by {
        assert(slot_free(free, w, s));
        let x = choose|x: int|
            0 <= x < free.len() && (#[trigger] free[x]).0 == w && free[x].1.contains(s);
        let i = choose|i: int|
            0 <= i < m.workers.len() && (#[trigger] m.workers[i]).0 == free[x].0 && free[x].1
                == m.workers[i].1.vacant_indices();
        let worker = m.workers[i].1;
        let y = free[x].1.index_of(s);
        assert(worker is Active);
        lemma_vacant_below(worker, worker->slots.len());
        assert(worker.vacant_below(worker->slots.len())[y] == s);
    }
}

proof fn lemma_placeable_is_largest(
    slots: Seq<(WorkerId, Seq<usize>)>,
    policy: PlacementPolicy,
    queue: Seq<Seq<(TaskPlacement, Seq<TaskSetEntry>)>>,
)
    ensures
        placeable(slots, policy, queue) <= queue.len(),
        place_regions(slots, policy, queue.take(placeable(slots, policy, queue) as int)) is Some,
        placeable(slots, policy, queue) < queue.len() ==> place_regions(
            slots,
            policy,
            queue.take(placeable(slots, policy, queue) as int + 1),
        ) is None,
    decreases queue.len(),
{
    let n = placeable(slots, policy, queue) as int;
    if queue.len() == 0 || place_regions(slots, policy, queue) is Some {
        assert(queue.take(n) =~= queue);
    } else {
        let shorter = queue.drop_last();
        lemma_placeable_is_largest(slots, policy, shorter);
        assert(shorter.take(n) =~= queue.take(n));
        if n < shorter.len() {
            assert(shorter.take(n + 1) =~= queue.take(n + 1));
        } else {
            assert(queue.take(n + 1) =~= queue);
        }
    }
}

/// The assigned regions are the longest part at the front of the queue that fits as a whole, and
/// what follows stays queued in its order.
pub proof fn law_regions_are_assigned_whole_and_in_order(m: AssignerModel)
    ensures
        m.assignable() <= m.queue.len(),
        place_regions(
            vacant_by_worker(m.workers),
            m.options.placement,
            m.queue.take(m.assignable() as int),
        ) is Some,
        m.assignable() < m.queue.len() ==> place_regions(
            vacant_by_worker(m.workers),
            m.options.placement,
            m.queue.take(m.assignable() as int + 1),
        ) is None,
        m.assigned().queue == m.queue.skip(m.assignable() as int),
{
    lemma_placeable_is_largest(vacant_by_worker(m.workers), m.options.placement, m.queue);
    lemma_placing_keeps_queue(
        AssignerModel { queue: m.queue.skip(m.assignable() as int), ..m },
        m.assignment_of_queue(),
    );
}

proof fn lemma_placing_keeps_queue(m: AssignerModel, placed: Seq<PlacedSet>)
    ensures
        m.with_all_placed(placed).queue == m.queue,
    decreases placed.len(),
{
    if placed.len() > 0 {
        lemma_placing_keeps_queue(m, placed.drop_last());
    }
}

/// Requests stay within the limit: where the requested and the active workers together do not
/// exceed it, they do not exceed it after a request either.
pub proof fn law_requests_respect_the_limit(m: AssignerModel)
    requires
        m.options.worker_max_count > 0,
        m.requested + active_workers(m.workers) <= m.options.worker_max_count,
    ensures
        m.requested + m.workers_to_request() + active_workers(m.workers)
            <= m.options.worker_max_count,
{
}

/// After the local streams of a job or stage were dropped, no resource holds any of them.
pub proof fn law_untracked_streams_are_gone(m: AssignerModel, job_id: JobId, stage: Option<usize>)
    ensures
        m.without_local_streams(job_id, stage).stream_holders(job_id, stage) == Seq::<
            TaskStreamAssignment,
        >::empty(),
{
    let after = m.without_local_streams(job_id, stage);
    crate::stream_set::lemma_without_streams_holds_none(m.driver.local_streams, job_id, stage);
    lemma_no_holder_left(m.workers, job_id, stage);
    assert(after.stream_holders(job_id, stage) =~= Seq::<TaskStreamAssignment>::empty());
}

proof fn lemma_no_holder_left(
    workers: Seq<(WorkerId, WorkerModel)>,
    job_id: JobId,
    stage: Option<usize>,
)
    ensures
        worker_holders(
            workers.map_values(
                |w: (WorkerId, WorkerModel)| (w.0, w.1.without_local_streams(job_id, stage)),
            ),
            job_id,
            stage,
        ) == Seq::<TaskStreamAssignment>::empty(),
    decreases workers.len(),
{
    let f = |w: (WorkerId, WorkerModel)| (w.0, w.1.without_local_streams(job_id, stage));
    if workers.len() > 0 {
        lemma_no_holder_left(workers.drop_last(), job_id, stage);
        assert(workers.map_values(f).drop_last() =~= workers.drop_last().map_values(f));
        match workers.last().1 {
            WorkerModel::Active { slots, local_streams } => {
                crate::stream_set::lemma_without_streams_holds_none(local_streams, job_id, stage);
            },
            WorkerModel::Inactive => {},
        }
    }
}

/// An excluded task is in no queued region.
pub proof fn law_excluded_task_is_not_queued(
    queue: Seq<Seq<(TaskPlacement, Seq<TaskSetEntry>)>>,
    key: TaskKey,
)
    ensures
        forall|i: int|
            0 <= i < without_regions_of(queue, key).len() ==> !region_has_task(
                #[trigger] without_regions_of(queue, key)[i],
                key,
            ),
{
    let p = |r: Seq<(TaskPlacement, Seq<TaskSetEntry>)>| !region_has_task(r, key);
    let kept = queue.filter(p);
    assert forall|i: int| 0 <= i < kept.len() implies !region_has_task(#[trigger] kept[i], key) by {
        queue.lemma_filter_pred(p, i);
        assert(p(kept[i]));
    }
}

proof fn lemma_enqueued_flat(queue: Seq<Seq<(TaskPlacement, Seq<TaskSetEntry>)>>)
    ensures
        enqueued_slots(queue) == queue.flatten().filter(
            |t: (TaskPlacement, Seq<TaskSetEntry>)| t.0 == TaskPlacement::Worker,
        ).len(),
    decreases queue.len(),
{
    let p = |t: (TaskPlacement, Seq<TaskSetEntry>)| t.0 == TaskPlacement::Worker;
    reveal(Seq::filter);
    if queue.len() > 0 {
        let rest = queue.drop_last();
        lemma_enqueued_flat(rest);
        rest.lemma_flatten_push(queue.last());
        assert(rest.push(queue.last()) =~= queue);
        Seq::filter_distributes_over_add(rest.flatten(), queue.last(), p);
    } else {
        assert(queue.flatten() =~= Seq::empty());
    }
}

proof fn lemma_groups(n: int, size: int)
    requires
        n >= 0,
        size > 0,
    ensures
        groups_of(n, size) >= 0,
        groups_of(n, size) <= n,
        groups_of(n, size) * size >= n,
        groups_of(n, size) > 0 ==> (groups_of(n, size) - 1) * size < n,
{
    let q = n / size;
    let r = n % size;
    vstd::arithmetic::div_mod::lemma_fundamental_div_mod(n, size);
    vstd::arithmetic::div_mod::lemma_mod_bound(n, size);
    vstd::arithmetic::div_mod::lemma_div_pos_is_pos(n, size);
    assert(q <= n && (r > 0 ==> q + 1 <= n) && q * size <= n && (q + 1) * size > n && (q - 1) * size
        < q * size && q * size + r == n) by (nonlinear_arith)
        requires
            n == size * q + r,
            0 <= r < size,
            q >= 0,
            size > 0,
    ;
}

/// Requested workers suffice, and none is requested in vain. With the slots of the requested workers
/// the vacant ones are enough for all queued task sets that run on workers, unless the requested and
/// the active workers reach the limit; with one worker fewer they would not be enough.
pub proof fn law_requested_workers_suffice(m: AssignerModel)
    requires
        m.options.worker_task_slots > 0,
        enqueued_slots(m.queue) <= usize::MAX,
    ensures
        ({
            let count = m.workers_to_request();
            let size = m.options.worker_task_slots as int;
            let limit = m.options.worker_max_count as int;
            let active = m.workers.filter(|w: (WorkerId, WorkerModel)| w.1 is Active).len() as int;
            let vacant = total_vacant(m.workers) as int;
            let needed = m.queue.flatten().filter(
                |t: (TaskPlacement, Seq<TaskSetEntry>)| t.0 == TaskPlacement::Worker,
            ).len() as int;
            &&& count >= 0
            &&& vacant + count * size >= needed || limit > 0 && m.requested + active + count >= limit
            &&& count > 0 ==> vacant + (count - 1) * size < needed
        }),
{
    lemma_enqueued_flat(m.queue);
    let size = m.options.worker_task_slots as int;
    let vacant = total_vacant(m.workers) as int;
    let missing = minus(enqueued_slots(m.queue) as int, vacant);
    let count = m.workers_to_request();
    let required = groups_of(missing, size);
    lemma_groups(missing, size);
    assert(count <= required);
    if count > 0 {
        assert((count - 1) * size <= (required - 1) * size) by (nonlinear_arith)
            requires
                count <= required,
                size > 0,
        ;
    }
    if count == required {
        assert(vacant + count * size >= enqueued_slots(m.queue));
    }
    assert(count == 0 ==> count * size == 0) by (nonlinear_arith);
}

/// The vacant slots of workers add up: those of two lists together are the sum. An inactive worker
/// has none, and an active one as many as it has slots without a task.
pub proof fn law_vacant_slots_add_up(
    a: Seq<(WorkerId, WorkerModel)>,
    b: Seq<(WorkerId, WorkerModel)>,
    id: WorkerId,
    slots: Seq<Seq<TaskKey>>,
    streams: Seq<(u64, usize, usize, usize)>,
)
    ensures
        total_vacant(a + b) == total_vacant(a) + total_vacant(b),
        total_vacant(seq![(id, WorkerModel::Inactive)]) == 0,
        total_vacant(seq![(id, WorkerModel::Active { slots, local_streams: streams })])
            == slots.filter(|s: Seq<TaskKey>| s.len() == 0).len(),
    decreases b.len(),
{
    reveal_with_fuel(total_vacant, 2);
    if b.len() == 0 {
        assert(a + b =~= a);
    } else {
        law_vacant_slots_add_up(a, b.drop_last(), id, slots, streams);
        assert((a + b).drop_last() =~= a + b.drop_last());
        assert((a + b).last() == b.last());
    }
    let one = seq![(id, WorkerModel::Active { slots, local_streams: streams })];
    assert(one.drop_last() =~= Seq::<(WorkerId, WorkerModel)>::empty());
    let none = seq![(id, WorkerModel::Inactive)];
    assert(none.drop_last() =~= Seq::<(WorkerId, WorkerModel)>::empty());
}

/// The number of free slots.
pub open spec fn free_slots(slots: Seq<(WorkerId, Seq<usize>)>) -> nat
    decreases slots.len(),
{
    if slots.len() == 0 {
        0
    } else {
        free_slots(slots.drop_last()) + slots.last().1.len()
    }
}

proof fn lemma_free_slots_after(slots: Seq<(WorkerId, Seq<usize>)>, i: int)
    requires
        0 <= i < slots.len(),
        slots[i].1.len() > 0,
    ensures
        free_slots(slots) > 0,
        free_slots(slots_after(slots, i)) == free_slots(slots) - 1,
    decreases slots.len(),
{
    let after = slots_after(slots, i);
    if i < slots.len() - 1 {
        lemma_free_slots_after(slots.drop_last(), i);
        assert(after.drop_last() =~= slots_after(slots.drop_last(), i));
        assert(after.last() == slots.last());
    } else {
        assert(after.drop_last() =~= slots.drop_last());
    }
}

proof fn lemma_no_free_slots(slots: Seq<(WorkerId, Seq<usize>)>)
    ensures
        has_free(slots) <==> free_slots(slots) > 0,
    decreases slots.len(),
{
    if slots.len() > 0 {
        let rest = slots.drop_last();
        lemma_no_free_slots(rest);
        if has_free(rest) {
            let i = choose|i: int| 0 <= i < rest.len() && (#[trigger] rest[i]).1.len() > 0;
            assert(slots[i].1.len() > 0);
        }
        if slots.last().1.len() > 0 {
            assert(slots[slots.len() - 1].1.len() > 0);
        }
        if has_free(slots) {
            let i = choose|i: int| 0 <= i < slots.len() && (#[trigger] slots[i]).1.len() > 0;
            if i < rest.len() {
                assert(rest[i].1.len() > 0);
            }
        }
    }
}

proof fn lemma_region_fits(
    slots: Seq<(WorkerId, Seq<usize>)>,
    policy: PlacementPolicy,
    tasks: Seq<(TaskPlacement, Seq<TaskSetEntry>)>,
)
    ensures
        place_region(slots, policy, tasks) is Some <==> worker_sets(tasks) <= free_slots(slots),
        place_region(slots, policy, tasks) matches Some(r) ==> {
            &&& free_slots(r.1) + worker_sets(tasks) == free_slots(slots)
            &&& r.0.len() == tasks.len()
            &&& forall|k: int|
                0 <= k < tasks.len() ==> (#[trigger] r.0[k]).set == tasks[k].1 && (
                r.0[k].assignment is Driver <==> tasks[k].0 == TaskPlacement::Driver)
        },
    decreases tasks.len(),
{
    reveal(Seq::filter);
    if tasks.len() > 0 {
        lemma_region_fits(slots, policy, tasks.drop_last());
        if let Some((done, left)) = place_region(slots, policy, tasks.drop_last()) {
            lemma_no_free_slots(left);
            if has_free(left) {
                lemma_chosen_exists(left, policy);
                lemma_free_slots_after(left, chosen(left, policy));
            }
        }
    }
}

proof fn lemma_regions_fit(
    slots: Seq<(WorkerId, Seq<usize>)>,
    policy: PlacementPolicy,
    regions: Seq<Seq<(TaskPlacement, Seq<TaskSetEntry>)>>,
)
    ensures
        place_regions(slots, policy, regions) is Some <==> enqueued_slots(regions) <= free_slots(
            slots,
        ),
        place_regions(slots, policy, regions) matches Some(r) ==> {
            &&& free_slots(r.1) + enqueued_slots(regions) == free_slots(slots)
            &&& r.0.len() == regions.flatten().len()
            &&& forall|k: int|
                0 <= k < r.0.len() ==> (#[trigger] r.0[k]).set == regions.flatten()[k].1 && (
                r.0[k].assignment is Driver <==> regions.flatten()[k].0 == TaskPlacement::Driver)
        },
    decreases regions.len(),
{
    if regions.len() > 0 {
        let rest = regions.drop_last();
        lemma_regions_fit(slots, policy, rest);
        rest.lemma_flatten_push(regions.last());
        assert(rest.push(regions.last()) =~= regions);
        if let Some((done, left)) = place_regions(slots, policy, rest) {
            lemma_region_fits(left, policy, regions.last());
            if let Some((more, end)) = place_region(left, policy, regions.last()) {
                let all = done + more;
                assert forall|k: int| 0 <= k < all.len() implies (#[trigger] all[k]).set
                    == regions.flatten()[k].1 && (all[k].assignment is Driver
                    <==> regions.flatten()[k].0 == TaskPlacement::Driver) by {
                    if k < done.len() {
                        assert(all[k] == done[k]);
                    } else {
                        assert(all[k] == more[k - done.len()]);
                    }
                }
            }
        }
    } else {
        assert(regions.flatten() =~= Seq::empty());
    }
}

proof fn lemma_vacant_count(worker: WorkerModel, n: nat)
    requires
        worker is Active,
        n <= worker->slots.len(),
    ensures
        worker.vacant_below(n).len() == worker->slots.take(n as int).filter(
            |s: Seq<TaskKey>| s.len() == 0,
        ).len(),
    decreases n,
{
    reveal(Seq::filter);
    let slots = worker->slots;
    if n > 0 {
        lemma_vacant_count(worker, (n - 1) as nat);
        assert(slots.take(n as int).drop_last() =~= slots.take(n - 1));
        assert(slots.take(n as int).last() == slots[n - 1]);
    }
}

proof fn lemma_free_is_vacant(workers: Seq<(WorkerId, WorkerModel)>)
    ensures
        free_slots(vacant_by_worker(workers)) == total_vacant(workers),
    decreases workers.len(),
{
    if workers.len() > 0 {
        let rest = workers.drop_last();
        lemma_free_is_vacant(rest);
        let worker = workers.last().1;
        if worker is Active {
            lemma_vacant_count(worker, worker->slots.len());
            assert(worker->slots.take(worker->slots.len() as int) =~= worker->slots);
        }
        let before = vacant_by_worker(rest);
        if worker.vacant_indices().len() > 0 {
            let all = before.push((workers.last().0, worker.vacant_indices()));
            assert(all.drop_last() =~= before);
            assert(all.last() == (workers.last().0, worker.vacant_indices()));
        }
    }
}

/// A queue is assigned as far as there are slots: as many regions at its front as have no more task
/// sets for workers than there are vacant slots, and the next one has more.
pub proof fn law_regions_are_assigned_while_slots_suffice(m: AssignerModel)
    ensures
        ({
            let n = m.assignable() as int;
            let p = |t: (TaskPlacement, Seq<TaskSetEntry>)| t.0 == TaskPlacement::Worker;
            &&& 0 <= n <= m.queue.len()
            &&& m.queue.take(n).flatten().filter(p).len() <= total_vacant(m.workers)
            &&& n < m.queue.len() ==> m.queue.take(n + 1).flatten().filter(p).len() > total_vacant(
                m.workers,
            )
        }),
{
    let free = vacant_by_worker(m.workers);
    let policy = m.options.placement;
    let n = m.assignable() as int;
    law_regions_are_assigned_whole_and_in_order(m);
    lemma_free_is_vacant(m.workers);
    lemma_regions_fit(free, policy, m.queue.take(n));
    lemma_enqueued_flat(m.queue.take(n));
    if n < m.queue.len() {
        lemma_regions_fit(free, policy, m.queue.take(n + 1));
        lemma_enqueued_flat(m.queue.take(n + 1));
    }
}

/// Every task set of the assigned regions is placed, once and in order, on the driver exactly where
/// it is to run there.
pub proof fn law_assigned_sets_are_those_of_the_queue(m: AssignerModel)
    ensures
        ({
            let placed = m.assignment_of_queue();
            let sets = m.queue.take(m.assignable() as int).flatten();
            &&& placed.len() == sets.len()
            &&& forall|k: int|
                0 <= k < sets.len() ==> (#[trigger] placed[k]).set == sets[k].1 && (
                placed[k].assignment is Driver <==> sets[k].0 == TaskPlacement::Driver)
        }),
{
    law_regions_are_assigned_whole_and_in_order(m);
    lemma_regions_fit(
        vacant_by_worker(m.workers),
        m.options.placement,
        m.queue.take(m.assignable() as int),
    );
}

/// Every vacant slot of an active worker can be handed out.
pub proof fn law_vacant_slots_can_be_handed_out(
    workers: Seq<(WorkerId, WorkerModel)>,
    i: int,
    slot: usize,
)
    requires
        0 <= i < workers.len(),
        workers[i].1 is Active,
        slot < workers[i].1->slots.len() <= usize::MAX,
        workers[i].1->slots[slot as int].len() == 0,
    ensures
        slot_free(vacant_by_worker(workers), workers[i].0, slot),
    decreases workers.len(),
{
    let rest = workers.drop_last();
    let before = vacant_by_worker(rest);
    let all = vacant_by_worker(workers);
    if i < rest.len() {
        assert(rest[i] == workers[i]);
        law_vacant_slots_can_be_handed_out(rest, i, slot);
        let x = choose|x: int|
            0 <= x < before.len() && (#[trigger] before[x]).0 == workers[i].0
                && before[x].1.contains(slot);
        assert(all[x] == before[x]);
    } else {
        let worker = workers[i].1;
        lemma_vacant_is_listed(worker, worker->slots.len(), slot);
        assert(worker.vacant_indices().contains(slot));
        assert(all[before.len() as int] == (workers[i].0, worker.vacant_indices()));
    }
}

proof fn lemma_vacant_is_listed(worker: WorkerModel, n: nat, slot: usize)
    requires
        worker is Active,
        slot < n <= worker->slots.len(),
        n <= usize::MAX,
        worker->slots[slot as int].len() == 0,
    ensures
        worker.vacant_below(n).contains(slot),
    decreases n,
{
    let before = worker.vacant_below((n - 1) as nat);
    let all = worker.vacant_below(n);
    if slot < n - 1 {
        lemma_vacant_is_listed(worker, (n - 1) as nat, slot);
        let k = before.index_of(slot);
        assert(all[k] == slot);
    } else {
        assert(all[before.len() as int] == slot);
    }
}

/// The policies differ in where a slot is taken: from the first worker with a free slot, or from a
/// worker than which no other has more. In both cases it is one that has a slot.
pub proof fn law_policies_choose_workers(slots: Seq<(WorkerId, Seq<usize>)>, j: int)
    requires
        has_free(slots),
        0 <= j < slots.len(),
    ensures
        ({
            let first = chosen(slots, PlacementPolicy::FillFirst);
            let most = chosen(slots, PlacementPolicy::EvenSpread);
            &&& 0 <= first < slots.len() && slots[first].1.len() > 0
            &&& 0 <= most < slots.len() && slots[most].1.len() > 0
            &&& slots[j].1.len() > 0 ==> first <= j
            &&& slots[j].1.len() <= slots[most].1.len()
            &&& slots[j].1.len() == slots[most].1.len() ==> most <= j
        }),
{
    lemma_chosen_exists(slots, PlacementPolicy::FillFirst);
    lemma_chosen_exists(slots, PlacementPolicy::EvenSpread);
}

/// Taking a slot takes one: of one worker, and no other slot.
pub proof fn law_one_slot_is_taken(
    slots: Seq<(WorkerId, Seq<usize>)>,
    i: int,
    w: WorkerId,
    s: usize,
)
    requires
        distinct_slots(slots),
        0 <= i < slots.len(),
        slots[i].1.len() > 0,
    ensures
        free_slots(slots_after(slots, i)) == free_slots(slots) - 1,
        slot_free(slots_after(slots, i), w, s) <==> slot_free(slots, w, s) && !(w == slots[i].0 && s
            == slots[i].1.last()),
{
    lemma_free_slots_after(slots, i);
    lemma_slots_after(slots, i);
}

proof fn lemma_with_tasks(tasks: Seq<TaskKey>, set: Seq<TaskSetEntry>, key: TaskKey)
    ensures
        with_tasks(tasks, set).contains(key) <==> tasks.contains(key) || set_has_task(set, key),
        tasks.no_duplicates() ==> with_tasks(tasks, set).no_duplicates(),
    decreases set.len(),
{
    if set.len() > 0 {
        let rest = set.drop_last();
        let before = with_tasks(tasks, rest);
        let all = with_tasks(tasks, set);
        lemma_with_tasks(tasks, rest, key);
        lemma_with_tasks(tasks, rest, set.last().key);
        if set_has_task(rest, key) {
            let i = choose|i: int| 0 <= i < rest.len() && (#[trigger] rest[i]).key == key;
            assert(set[i].key == key);
        }
        assert(set[set.len() - 1] == set.last());
        if set_has_task(set, key) && set.last().key != key {
            let i = choose|i: int| 0 <= i < set.len() && (#[trigger] set[i]).key == key;
            assert(rest[i].key == key);
        }
        if !before.contains(set.last().key) {
            assert(all =~= before.push(set.last().key));
            if before.contains(key) {
                assert(all[before.index_of(key)] == key);
            }
            assert(all[before.len() as int] == set.last().key);
            if all.contains(key) && key != set.last().key {
                assert(before[all.index_of(key)] == key);
            }
        }
    }
}

/// A placed set runs where it is placed: its tasks, and those that were there before, are the tasks
/// of the driver or of the slot, each once. Its tasks are found there, and what other tasks are
/// assigned to stays as it was.
pub proof fn law_placed_tasks_run_where_they_are_placed(
    m: AssignerModel,
    placed: PlacedSet,
    i: int,
    slot: usize,
    key: TaskKey,
)
    requires
        m.valid(),
        placed.assignment matches TaskAssignment::Worker { worker_id, slot: s } ==> {
            &&& 0 <= i < m.workers.len() && m.workers[i].0 == worker_id && s == slot
            &&& m.workers[i].1 is Active && slot < m.workers[i].1->slots.len()
        },
    ensures
        ({
            let after = m.with_placed(placed);
            let own = exists|e: int| 0 <= e < placed.set.len() && (#[trigger] placed.set[e]).key
                == key;
            &&& after.assignments.contains_key(key) <==> own || m.assignments.contains_key(key)
            &&& own ==> after.assignments[key] == placed.assignment
            &&& !own && m.assignments.contains_key(key) ==> after.assignments[key]
                == m.assignments[key]
            &&& placed.assignment is Driver ==> {
                &&& after.driver.tasks.contains(key) <==> own || m.driver.tasks.contains(key)
                &&& after.workers == m.workers
            }
            &&& placed.assignment is Worker ==> {
                &&& after.workers[i].1 is Active
                &&& after.workers[i].1->slots[slot as int].contains(key) <==> own
                    || m.workers[i].1->slots[slot as int].contains(key)
                &&& forall|s: int|
                    0 <= s < m.workers[i].1->slots.len() && s != slot
                        ==> #[trigger] after.workers[i].1->slots[s] == m.workers[i].1->slots[s]
                &&& forall|j: int|
                    0 <= j < m.workers.len() && j != i ==> #[trigger] after.workers[j]
                        == m.workers[j]
                &&& after.driver == m.driver
            }
            &&& after.queue == m.queue && after.requested == m.requested
        }),
{
    match placed.assignment {
        TaskAssignment::Driver => {
            lemma_with_tasks(m.driver.tasks, placed.set, key);
        },
        TaskAssignment::Worker { worker_id, slot: s } => {
            assert(has_worker(m.workers, worker_id));
            assert(worker_index(m.workers, worker_id) == i);
            lemma_with_tasks(m.workers[i].1->slots[slot as int], placed.set, key);
        },
    }
}

/// A task that is taken out of a slot is gone from it, and all others stay, so that a slot is vacant
/// again once each of its tasks was taken out.
pub proof fn law_removed_tasks_are_gone(tasks: Seq<TaskKey>, key: TaskKey, other: TaskKey)
    ensures
        without_task(tasks, key).contains(other) <==> other != key && tasks.contains(other),
        (forall|i: int| 0 <= i < tasks.len() ==> #[trigger] tasks[i] == key) ==> without_task(
            tasks,
            key,
        ).len() == 0,
    decreases tasks.len(),
{
    reveal(Seq::filter);
    if tasks.len() > 0 {
        let rest = tasks.drop_last();
        law_removed_tasks_are_gone(rest, key, other);
        assert(tasks =~= rest.push(tasks.last()));
        let left = without_task(rest, key);
        assert(tasks.contains(other) <==> rest.contains(other) || tasks.last() == other) by {
            if rest.contains(other) {
                let i = choose|i: int| 0 <= i < rest.len() && rest[i] == other;
                assert(tasks[i] == other);
            }
            if tasks.last() == other {
                assert(tasks[tasks.len() - 1] == other);
            }
            if tasks.contains(other) && tasks.last() != other {
                let i = choose|i: int| 0 <= i < tasks.len() && tasks[i] == other;
                assert(rest[i] == other);
            }
        }
        if tasks.last() != key {
            let all = left.push(tasks.last());
            assert(without_task(tasks, key) == all);
            assert(all.contains(other) <==> left.contains(other) || tasks.last() == other) by {
                if left.contains(other) {
                    let i = choose|i: int| 0 <= i < left.len() && left[i] == other;
                    assert(all[i] == other);
                }
                if tasks.last() == other {
                    assert(all[all.len() - 1] == other);
                }
                if all.contains(other) && tasks.last() != other {
                    let i = choose|i: int| 0 <= i < all.len() && all[i] == other;
                    assert(left[i] == other);
                }
            }
            assert(tasks[tasks.len() - 1] != key);
        } else {
            assert(without_task(tasks, key) == left);
            if forall|i: int| 0 <= i < tasks.len() ==> #[trigger] tasks[i] == key {
                assert forall|i: int| 0 <= i < rest.len() implies #[trigger] rest[i] == key by {
                    assert(tasks[i] == key);
                }
            }
        }
    }
}

/// An excluded task is in no set of any region that stays queued, and every region without it stays.
pub proof fn law_exclusion_drops_only_regions_of_the_task(
    queue: Seq<Seq<(TaskPlacement, Seq<TaskSetEntry>)>>,
    key: TaskKey,
    r: int,
)
    ensures
        forall|i: int, j: int, e: int|
            0 <= i < without_regions_of(queue, key).len() && 0 <= j < without_regions_of(
                queue,
                key,
            )[i].len() && 0 <= e < without_regions_of(queue, key)[i][j].1.len()
                ==> #[trigger] without_regions_of(queue, key)[i][j].1[e].key != key,
        0 <= r < queue.len() && (forall|j: int, e: int|
            0 <= j < queue[r].len() && 0 <= e < queue[r][j].1.len()
                ==> #[trigger] queue[r][j].1[e].key != key) ==> without_regions_of(
            queue,
            key,
        ).contains(queue[r]),
{
    let p = |q: Seq<(TaskPlacement, Seq<TaskSetEntry>)>| !region_has_task(q, key);
    let kept = queue.filter(p);
    law_excluded_task_is_not_queued(queue, key);
    assert forall|i: int, j: int, e: int|
        0 <= i < kept.len() && 0 <= j < kept[i].len() && 0 <= e
            < kept[i][j].1.len() implies #[trigger] kept[i][j].1[e].key != key by {
        if kept[i][j].1[e].key == key {
            assert(set_has_task(kept[i][j].1, key));
            assert(region_has_task(kept[i], key));
        }
    }
    if 0 <= r < queue.len() && (forall|j: int, e: int|
        0 <= j < queue[r].len() && 0 <= e < queue[r][j].1.len()
            ==> #[trigger] queue[r][j].1[e].key != key) {
        if region_has_task(queue[r], key) {
            let j = choose|j: int|
                0 <= j < queue[r].len() && set_has_task((#[trigger] queue[r][j]).1, key);
            let e = choose|e: int|
                0 <= e < queue[r][j].1.len() && (#[trigger] queue[r][j].1[e]).key == key;
            assert(queue[r][j].1[e].key == key);
        }
        queue.lemma_filter_contains(p, r);
    }
}

/// The streams of a set are recorded by their kind: those of tasks with an output of that kind are
/// there afterwards, what was there stays, and nothing else is.
pub proof fn law_streams_are_recorded_by_kind(
    streams: Seq<(u64, usize, usize, usize)>,
    set: Seq<TaskSetEntry>,
    kind: TaskOutputKind,
    item: (u64, usize, usize, usize),
)
    ensures
        with_set_streams(streams, set, kind).contains(item) <==> streams.contains(item) || exists|
            i: int,
        | 0 <= i < set.len() && (#[trigger] set[i]).output == kind && stream_item(set[i].key)
            == item,
    decreases set.len(),
{
    if set.len() > 0 {
        let rest = set.drop_last();
        let n = set.len() - 1;
        let before = with_set_streams(streams, rest, kind);
        let all = with_set_streams(streams, set, kind);
        let last = stream_item(set.last().key);
        law_streams_are_recorded_by_kind(streams, rest, kind, item);
        if exists|i: int|
            0 <= i < rest.len() && (#[trigger] rest[i]).output == kind && stream_item(rest[i].key)
                == item {
            let i = choose|i: int|
                0 <= i < rest.len() && (#[trigger] rest[i]).output == kind && stream_item(
                    rest[i].key,
                ) == item;
            assert(set[i] == rest[i]);
        }
        if exists|i: int|
            0 <= i < set.len() && (#[trigger] set[i]).output == kind && stream_item(set[i].key)
                == item {
            let i = choose|i: int|
                0 <= i < set.len() && (#[trigger] set[i]).output == kind && stream_item(set[i].key)
                    == item;
            if i < n {
                assert(rest[i] == set[i]);
            }
        }
        if set.last().output == kind {
            if item == last {
                assert(set[n].output == kind && stream_item(set[n].key) == item);
            }
            if !before.contains(last) {
                assert(all == before.push(last));
                assert(all.contains(item) <==> before.contains(item) || item == last) by {
                    if before.contains(item) {
                        let i = choose|i: int| 0 <= i < before.len() && before[i] == item;
                        assert(all[i] == item);
                    }
                    if item == last {
                        assert(all[before.len() as int] == item);
                    }
                    if all.contains(item) && item != last {
                        let i = choose|i: int| 0 <= i < all.len() && all[i] == item;
                        assert(before[i] == item);
                    }
                }
            }
        }
    }
}

/// The remote streams of a placed set are recorded with the driver, wherever it runs; its local
/// streams where it runs, with the driver or with its worker, and nowhere else.
pub proof fn law_local_streams_stay_where_the_set_runs(
    m: AssignerModel,
    placed: PlacedSet,
    item: (u64, usize, usize, usize),
    w: int,
)
    requires
        m.valid(),
        0 <= w < m.workers.len(),
    ensures
        ({
            let after = m.with_streams(placed);
            let gives = |kind: TaskOutputKind|
                exists|i: int|
                    0 <= i < placed.set.len() && (#[trigger] placed.set[i]).output == kind
                        && stream_item(placed.set[i].key) == item;
            let here = placed.assignment matches TaskAssignment::Worker { worker_id, .. }
                && worker_id == m.workers[w].0;
            &&& after.driver.remote_streams.contains(item) <==> m.driver.remote_streams.contains(
                item,
            ) || gives(TaskOutputKind::Remote)
            &&& after.driver.local_streams.contains(item) <==> m.driver.local_streams.contains(item)
                || (placed.assignment is Driver && gives(TaskOutputKind::Local))
            &&& after.workers.len() == m.workers.len()
            &&& after.workers[w].0 == m.workers[w].0
            &&& !here ==> after.workers[w] == m.workers[w]
            &&& here && m.workers[w].1 is Active ==> {
                &&& after.workers[w].1 is Active
                &&& after.workers[w].1->slots == m.workers[w].1->slots
                &&& after.workers[w].1->local_streams.contains(item)
                    <==> m.workers[w].1->local_streams.contains(item) || gives(
                    TaskOutputKind::Local,
                )
            }
            &&& after.driver.tasks == m.driver.tasks && after.queue == m.queue
                && after.assignments == m.assignments && after.requested == m.requested
        }),
{
    law_streams_are_recorded_by_kind(
        m.driver.remote_streams,
        placed.set,
        TaskOutputKind::Remote,
        item,
    );
    match placed.assignment {
        TaskAssignment::Driver => {
            law_streams_are_recorded_by_kind(
                m.driver.local_streams,
                placed.set,
                TaskOutputKind::Local,
                item,
            );
        },
        TaskAssignment::Worker { worker_id, slot } => {
            if worker_id == m.workers[w].0 {
                assert(has_worker(m.workers, worker_id));
                assert(worker_index(m.workers, worker_id) == w);
                if m.workers[w].1 is Active {
                    law_streams_are_recorded_by_kind(
                        m.workers[w].1->local_streams,
                        placed.set,
                        TaskOutputKind::Local,
                        item,
                    );
                }
            }
        },
    }
}

/// The workers that are told to drop streams are exactly those that are active and hold some.
pub proof fn law_holders_are_the_workers_with_streams(
    workers: Seq<(WorkerId, WorkerModel)>,
    job_id: JobId,
    stage: Option<usize>,
    worker_id: WorkerId,
)
    ensures
        worker_holders(workers, job_id, stage).contains(TaskStreamAssignment::Worker { worker_id })
            <==> exists|i: int|
            0 <= i < workers.len() && (#[trigger] workers[i]).0 == worker_id && workers[i].1 is Active
                && holds_streams(workers[i].1->local_streams, job_id, stage),
    decreases workers.len(),
{
    if workers.len() > 0 {
        let rest = workers.drop_last();
        let n = workers.len() - 1;
        let before = worker_holders(rest, job_id, stage);
        let all = worker_holders(workers, job_id, stage);
        let item = TaskStreamAssignment::Worker { worker_id };
        law_holders_are_the_workers_with_streams(rest, job_id, stage, worker_id);
        if before.contains(item) {
            let i = choose|i: int|
                0 <= i < rest.len() && (#[trigger] rest[i]).0 == worker_id && rest[i].1 is Active
                    && holds_streams(rest[i].1->local_streams, job_id, stage);
            assert(workers[i] == rest[i]);
            let k = choose|k: int| 0 <= k < before.len() && before[k] == item;
            assert(all[k] == item);
        }
        if workers.last().1.holds_local_streams(job_id, stage) {
            if workers.last().0 == worker_id {
                assert(workers[n].0 == worker_id);
                assert(all[before.len() as int] == item);
            } else if all.contains(item) {
                let k = choose|k: int| 0 <= k < all.len() && all[k] == item;
                assert(before[k] == item);
            }
        }
        if exists|i: int|
            0 <= i < workers.len() && (#[trigger] workers[i]).0 == worker_id && workers[i].1 is Active
                && holds_streams(workers[i].1->local_streams, job_id, stage) {
            let i = choose|i: int|
                0 <= i < workers.len() && (#[trigger] workers[i]).0 == worker_id
                    && workers[i].1 is Active && holds_streams(
                    workers[i].1->local_streams,
                    job_id,
                    stage,
                );
            if i < n {
                assert(rest[i] == workers[i]);
            }
        }
    }
}

/// A worker is idle where nothing would be lost with it: it runs no task and holds no stream.
pub proof fn law_idle_workers_hold_nothing(w: WorkerModel, i: int)
    requires
        w.idle(),
    ensures
        w is Active,
        w->local_streams.len() == 0,
        0 <= i < w->slots.len() ==> w->slots[i].len() == 0,
        forall|job_id: JobId, stage: Option<usize>| !#[trigger] w.holds_local_streams(job_id, stage),
{
}

} // verus!
