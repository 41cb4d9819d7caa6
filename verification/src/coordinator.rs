//! The epoch coordinator of a distributed streaming job.
//!
//! The coordinator owns the epoch clock. It triggers epochs, collects one acknowledgement per
//! leaf task and epoch, and declares an epoch globally complete when every expected task has
//! acknowledged it. Completing an epoch subsumes every earlier epoch still in flight.

use std::collections::BTreeSet;

use vstd::prelude::*;
use vstd::std_specs::btree::*;

use crate::assoc::AssocMap;
use crate::text;

verus! {

/// What one task has durably recorded for an epoch.
#[derive(Debug)]
pub struct EpochAck {
    /// The offset to resume from, by `topic:partition`.
    pub offsets: AssocMap<String, i64>,
    /// The checkpoint-store key of each state blob, by `operator/partition`.
    pub state_ptrs: AssocMap<String, String>,
}

impl EpochAck {
    /// An acknowledgement that records nothing.
    pub fn new() -> (ack: Self)
        ensures
            ack.offsets@ == Map::<Seq<char>, i64>::empty(),
            ack.state_ptrs@ == Map::<Seq<char>, String>::empty(),
    {
        EpochAck { offsets: AssocMap::new(), state_ptrs: AssocMap::new() }
    }
}

impl Default for EpochAck {
    fn default() -> (ack: Self)
        ensures
            ack.offsets@ == Map::<Seq<char>, i64>::empty(),
            ack.state_ptrs@ == Map::<Seq<char>, String>::empty(),
    {
        EpochAck::new()
    }
}

/// The consistent record of an epoch that every task has acknowledged.
#[derive(Debug)]
pub struct GlobalCheckpoint {
    pub epoch: u64,
    pub offsets: AssocMap<String, i64>,
    pub state_ptrs: AssocMap<String, String>,
}

/// Why the coordinator refuses a request.
#[derive(Debug, Clone, Copy, PartialEq, Eq, Structural)]
pub enum CoordinatorError {
    /// There is no task to wait for.
    NoExpectedTasks,
    /// No epoch could ever be in flight.
    ZeroMaxInFlight,
    /// As many epochs as allowed are in flight.
    TooManyInFlight { count: usize, max: usize },
    /// The acknowledging task is not one of those expected.
    UnknownTask { task: u64 },
}

impl CoordinatorError {
    /// The message for the user.
    pub open spec fn text(self) -> Seq<char> {
        match self {
            CoordinatorError::NoExpectedTasks =>
                "EpochCoordinator requires at least one expected task"@,
            CoordinatorError::ZeroMaxInFlight => "EpochCoordinator requires max_in_flight >= 1"@,
            CoordinatorError::TooManyInFlight { count, max } => "EpochCoordinator: "@
                + text::decimal(count as nat) + " epochs already in flight (max "@ + text::decimal(
                max as nat,
            ) + ")"@,
            CoordinatorError::UnknownTask { task } => "EpochCoordinator: ack from unknown task "@
                + text::decimal(task as nat),
        }
    }

    /// The message for the user.
    pub fn message(&self) -> (out: String)
        ensures
            out@ == self.text(),
    {
        match self {
            CoordinatorError::NoExpectedTasks => {
                "EpochCoordinator requires at least one expected task".to_owned()
            },
            CoordinatorError::ZeroMaxInFlight => {
                "EpochCoordinator requires max_in_flight >= 1".to_owned()
            },
            CoordinatorError::TooManyInFlight { count, max } => {
                let mut out = "EpochCoordinator: ".to_owned();
                text::push_decimal(&mut out, *count as u64);
                out.append(" epochs already in flight (max ");
                text::push_decimal(&mut out, *max as u64);
                out.append(")");
                out
            },
            CoordinatorError::UnknownTask { task } => {
                let mut out = "EpochCoordinator: ack from unknown task ".to_owned();
                text::push_decimal(&mut out, *task);
                out
            },
        }
    }
}

#[derive(Debug)]
struct EpochState {
    acked: BTreeSet<u64>,
    merged: EpochAck,
}

/// The tasks that have acknowledged an epoch, and what they recorded.
#[verifier::ext_equal]
pub struct EpochModel {
    pub acked: Set<u64>,
    pub offsets: Map<Seq<char>, i64>,
    pub state_ptrs: Map<Seq<char>, String>,
}

/// The state of a coordinator.
#[verifier::ext_equal]
pub struct CoordinatorModel {
    pub expected: Set<u64>,
    pub in_flight: Map<u64, EpochModel>,
    pub last_triggered: Option<u64>,
    pub last_committed: Option<u64>,
    pub max_in_flight: nat,
}

/// What a global checkpoint records.
#[verifier::ext_equal]
pub struct CheckpointModel {
    pub epoch: u64,
    pub offsets: Map<Seq<char>, i64>,
    pub state_ptrs: Map<Seq<char>, String>,
}

impl View for GlobalCheckpoint {
    type V = CheckpointModel;

    open spec fn view(&self) -> CheckpointModel {
        CheckpointModel {
            epoch: self.epoch,
            offsets: self.offsets@,
            state_ptrs: self.state_ptrs@,
        }
    }
}

impl EpochState {
    spec fn model(self) -> EpochModel {
        EpochModel {
            acked: self.acked@,
            offsets: self.merged.offsets@,
            state_ptrs: self.merged.state_ptrs@,
        }
    }
}

/// An epoch that no task has acknowledged.
pub open spec fn fresh_epoch() -> EpochModel {
    EpochModel { acked: Set::empty(), offsets: Map::empty(), state_ptrs: Map::empty() }
}

impl EpochModel {
    /// The epoch after an acknowledgement: the first one of a task is merged, a repeated one
    /// changes nothing.
    pub open spec fn acknowledged(self, task: u64, ack: EpochAck) -> EpochModel {
        if self.acked.contains(task) {
            self
        } else {
            EpochModel {
                acked: self.acked.insert(task),
                offsets: self.offsets.union_prefer_right(ack.offsets@),
                state_ptrs: self.state_ptrs.union_prefer_right(ack.state_ptrs@),
            }
        }
    }
}

impl CoordinatorModel {
    /// What every reachable state satisfies: the clock is ahead of every epoch in flight, which is
    /// ahead of every committed one; an epoch in flight lacks some acknowledgement; and no more
    /// than the allowed number of epochs is in flight.
    pub open spec fn valid(self) -> bool {
        &&& self.expected.finite()
        &&& self.expected.len() > 0
        &&& self.max_in_flight > 0
        &&& self.in_flight.dom().finite()
        &&& self.in_flight.dom().len() <= self.max_in_flight
        &&& forall|e: u64| #[trigger]
            self.in_flight.contains_key(e) ==> {
                &&& self.in_flight[e].acked.subset_of(self.expected)
                &&& self.in_flight[e].acked != self.expected
                &&& self.last_triggered is Some
                &&& e <= self.last_triggered->0
                &&& self.last_committed is Some ==> self.last_committed->0 < e
            }
        &&& self.last_committed is Some ==> {
            &&& self.last_triggered is Some
            &&& self.last_committed->0 <= self.last_triggered->0
        }
    }

    /// The number of the next epoch.
    pub open spec fn next_epoch(self) -> int {
        match self.last_triggered {
            Some(t) => t + 1,
            None => match self.last_committed {
                Some(c) => c + 1,
                None => 0,
            },
        }
    }

    /// Whether as many epochs as allowed are in flight.
    pub open spec fn at_capacity(self) -> bool {
        self.in_flight.dom().len() >= self.max_in_flight
    }

    /// The state after the next epoch was triggered.
    pub open spec fn triggered(self) -> CoordinatorModel {
        CoordinatorModel {
            in_flight: self.in_flight.insert(self.next_epoch() as u64, fresh_epoch()),
            last_triggered: Some(self.next_epoch() as u64),
            ..self
        }
    }

    /// Whether an acknowledgement of the epoch has no effect: the epoch is committed already, or
    /// not in flight.
    pub open spec fn ignores(self, epoch: u64) -> bool {
        ||| self.last_committed is Some && epoch <= self.last_committed->0
        ||| !self.in_flight.contains_key(epoch)
    }

    /// Whether an acknowledgement by the task is the one that completes the epoch.
    pub open spec fn completes(self, epoch: u64, task: u64) -> bool {
        !self.ignores(epoch) && self.in_flight[epoch].acked.insert(task) == self.expected
    }

    /// The state after an acknowledgement by an expected task.
    pub open spec fn acknowledged(self, epoch: u64, task: u64, ack: EpochAck) -> CoordinatorModel {
        if self.ignores(epoch) {
            self
        } else if self.completes(epoch, task) {
            CoordinatorModel {
                in_flight: self.in_flight.restrict(
                    Set::new(|e: u64| self.in_flight.contains_key(e) && e > epoch),
                ),
                last_committed: Some(epoch),
                ..self
            }
        } else {
            CoordinatorModel {
                in_flight: self.in_flight.insert(
                    epoch,
                    self.in_flight[epoch].acknowledged(task, ack),
                ),
                ..self
            }
        }
    }

    /// What an acknowledgement by an expected task returns.
    pub open spec fn checkpoint(self, epoch: u64, task: u64, ack: EpochAck) -> Option<
        CheckpointModel,
    > {
        if self.completes(epoch, task) {
            let done = self.in_flight[epoch].acknowledged(task, ack);
            Some(CheckpointModel { epoch, offsets: done.offsets, state_ptrs: done.state_ptrs })
        } else {
            None
        }
    }

    /// The state after an epoch was aborted.
    pub open spec fn aborted(self, epoch: u64) -> CoordinatorModel {
        CoordinatorModel { in_flight: self.in_flight.remove(epoch), ..self }
    }

    /// The state after recovery from a committed epoch.
    pub open spec fn recovered(self, committed: u64) -> CoordinatorModel {
        CoordinatorModel {
            in_flight: Map::empty(),
            last_triggered: Some(committed),
            last_committed: Some(committed),
            ..self
        }
    }
}

/// The coordinator of a job with a fixed set of leaf tasks.
#[derive(Debug)]
pub struct EpochCoordinator {
    expected: BTreeSet<u64>,
    in_flight: AssocMap<u64, EpochState>,
    last_triggered: Option<u64>,
    last_committed: Option<u64>,
    max_in_flight: usize,
}

impl View for EpochCoordinator {
    type V = CoordinatorModel;

    closed spec fn view(&self) -> CoordinatorModel {
        CoordinatorModel {
            expected: self.expected@,
            in_flight: self.in_flight@.map_values(|s: EpochState| s.model()),
            last_triggered: self.last_triggered,
            last_committed: self.last_committed,
            max_in_flight: self.max_in_flight as nat,
        }
    }
}

impl EpochCoordinator {
    /// A coordinator that waits for each of the given tasks and allows `max_in_flight` epochs at
    /// once.
    pub fn new(expected_tasks: &[u64], max_in_flight: usize) -> (result: Result<
        Self,
        CoordinatorError,
    >)
        ensures
            match result {
                Ok(c) => {
                    &&& expected_tasks@.len() > 0
                    &&& max_in_flight > 0
                    &&& c@.valid()
                    &&& c@.expected == expected_tasks@.to_set()
                    &&& c@.in_flight == Map::<u64, EpochModel>::empty()
                    &&& c@.last_triggered == None::<u64>
                    &&& c@.last_committed == None::<u64>
                    &&& c@.max_in_flight == max_in_flight
                },
                Err(e) => {
                    ||| e == CoordinatorError::NoExpectedTasks && expected_tasks@.len() == 0
                    ||| e == CoordinatorError::ZeroMaxInFlight && expected_tasks@.len() > 0
                        && max_in_flight == 0
                },
            },
    {
        let mut expected: BTreeSet<u64> = BTreeSet::new();
        let mut i: usize = 0;
        while i < expected_tasks.len()
            invariant
                i <= expected_tasks@.len(),
                expected@ == expected_tasks@.take(i as int).to_set(),
            decreases expected_tasks@.len() - i,
        {
            let ghost before = expected@;
            let task: u64 = expected_tasks[i];
            expected.insert(task);
            i = i + 1;
            proof {
                let taken = expected_tasks@.take(i as int);
                let prev = expected_tasks@.take(i - 1);
                assert(taken =~= prev.push(task));
                assert forall|x: u64| expected@.contains(x) == taken.to_set().contains(x) by {
                    if prev.contains(x) {
                        assert(taken[prev.index_of(x)] == x);
                    }
                    assert(taken[i - 1] == task);
                    if taken.contains(x) && x != task {
                        assert(prev[taken.index_of(x)] == x);
                    }
                }
                assert(expected@ =~= taken.to_set());
            }
        }
        assert(expected_tasks@.take(i as int) =~= expected_tasks@);
        if expected.is_empty() {
            proof {
                if expected_tasks@.len() > 0 {
                    assert(expected@.contains(expected_tasks@[0]));
                }
            }
            return Err(CoordinatorError::NoExpectedTasks);
        }
        proof {
            if expected_tasks@.len() == 0 {
                assert(expected@ =~= Set::empty());
            }
        }
        if max_in_flight == 0 {
            return Err(CoordinatorError::ZeroMaxInFlight);
        }
        let c = EpochCoordinator {
            expected,
            in_flight: AssocMap::new(),
            last_triggered: None,
            last_committed: None,
            max_in_flight,
        };
        assert(c@.in_flight =~= Map::<u64, EpochModel>::empty());
        Ok(c)
    }

    /// Begins the next epoch and gives its number, unless as many epochs as allowed are in flight.
    pub fn trigger(&mut self) -> (result: Result<u64, CoordinatorError>)
        requires
            old(self)@.valid(),
            old(self)@.at_capacity() || old(self)@.next_epoch() <= u64::MAX,
        ensures
            final(self)@.valid(),
            match result {
                Ok(epoch) => {
                    &&& !old(self)@.at_capacity()
                    &&& epoch == old(self)@.next_epoch()
                    &&& final(self)@ == old(self)@.triggered()
                },
                Err(e) => {
                    &&& old(self)@.at_capacity()
                    &&& final(self)@ == old(self)@
                    &&& e == CoordinatorError::TooManyInFlight {
                        count: old(self)@.in_flight.dom().len() as usize,
                        max: old(self)@.max_in_flight as usize,
                    }
                },
            },
    {
        assert(self@.in_flight.dom() =~= self.in_flight@.dom());
        if self.in_flight.len() >= self.max_in_flight {
            return Err(
                CoordinatorError::TooManyInFlight {
                    count: self.in_flight.len(),
                    max: self.max_in_flight,
                },
            );
        }
        let epoch: u64 = match (self.last_triggered, self.last_committed) {
            (Some(t), _) => t + 1,
            (None, Some(c)) => c + 1,
            (None, None) => 0,
        };
        self.last_triggered = Some(epoch);
        let state = EpochState { acked: BTreeSet::new(), merged: EpochAck::new() };
        assert(state.model() =~= fresh_epoch());
        self.in_flight.insert(epoch, state);
        proof {
            assert(self@.in_flight =~= old(self)@.in_flight.insert(epoch, fresh_epoch()));
            assert(!old(self)@.in_flight.contains_key(epoch));
        }
        Ok(epoch)
    }

    /// Records what `task` acknowledges for `epoch`. The acknowledgement that completes the epoch
    /// commits it, drops every epoch up to it, and returns the checkpoint.
    pub fn ack(&mut self, epoch: u64, task: u64, ack: EpochAck) -> (result: Result<
        Option<GlobalCheckpoint>,
        CoordinatorError,
    >)
        requires
            old(self)@.valid(),
        ensures
            final(self)@.valid(),
            match result {
                Ok(out) => {
                    &&& old(self)@.expected.contains(task)
                    &&& final(self)@ == old(self)@.acknowledged(epoch, task, ack)
                    &&& (match out {
                        Some(gc) => old(self)@.checkpoint(epoch, task, ack) == Some(gc@),
                        None => old(self)@.checkpoint(epoch, task, ack) is None,
                    })
                },
                Err(e) => {
                    &&& !old(self)@.expected.contains(task)
                    &&& e == CoordinatorError::UnknownTask { task }
                    &&& final(self)@ == old(self)@
                },
            },
    {
        if !self.expected.contains(&task) {
            return Err(CoordinatorError::UnknownTask { task });
        }
        let stale = match self.last_committed {
            Some(c) => epoch <= c,
            None => false,
        };
        if stale {
            return Ok(None);
        }
        let ghost before = self.in_flight@;
        let mut state = match self.in_flight.remove(&epoch) {
            Some(state) => state,
            None => {
                assert(self@.in_flight =~= old(self)@.in_flight);
                return Ok(None);
            },
        };
        let ghost prior = state.model();
        assert(old(self)@.in_flight[epoch] == prior);
        let ghost pending = prior.acknowledged(task, ack);
        if state.acked.insert(task) {
            state.merged.offsets.extend(ack.offsets);
            state.merged.state_ptrs.extend(ack.state_ptrs);
        }
        proof {
            assert(state.model().acked =~= pending.acked);
            assert(state.model() =~= pending);
            assert(pending.acked =~= prior.acked.insert(task));
            assert(pending.acked.subset_of(self.expected@));
            vstd::set_lib::lemma_len_subset(pending.acked, self.expected@);
            if pending.acked.len() == self.expected@.len() {
                vstd::set_lib::lemma_subset_equality(pending.acked, self.expected@);
            }
        }
        if state.acked.len() < self.expected.len() {
            self.in_flight.insert(epoch, state);
            proof {
                assert(self@.in_flight =~= old(self)@.in_flight.insert(epoch, pending));
                assert(self@.in_flight.dom() =~= old(self)@.in_flight.dom());
            }
            return Ok(None);
        }
        let ghost rest = self.in_flight@;
        loop
            invariant
                self.expected == old(self).expected,
                self.last_triggered == old(self).last_triggered,
                self.last_committed == old(self).last_committed,
                self.max_in_flight == old(self).max_in_flight,
                rest == before.remove(epoch),
                forall|e: u64| #[trigger]
                    self.in_flight@.contains_key(e) ==> rest.contains_key(e)
                        && self.in_flight@[e] == rest[e],
                forall|e: u64| #[trigger]
                    rest.contains_key(e) && e > epoch ==> self.in_flight@.contains_key(e),
            ensures
                forall|e: u64| #[trigger] self.in_flight@.contains_key(e) ==> e > epoch,
            decreases self.in_flight.entries().len(),
        {
            match first_up_to(&self.in_flight, epoch) {
                Some(e) => {
                    self.in_flight.remove(&e);
                },
                None => {
                    break;
                },
            }
        }
        self.last_committed = Some(epoch);
        proof {
            let kept = Set::new(|e: u64| old(self)@.in_flight.contains_key(e) && e > epoch);
            assert(self@.in_flight =~= old(self)@.in_flight.restrict(kept));
            assert(self@.in_flight.dom().subset_of(old(self)@.in_flight.dom()));
            vstd::set_lib::lemma_len_subset(self@.in_flight.dom(), old(self)@.in_flight.dom());
        }
        Ok(
            Some(
                GlobalCheckpoint {
                    epoch,
                    offsets: state.merged.offsets,
                    state_ptrs: state.merged.state_ptrs,
                },
            ),
        )
    }

    /// Drops an epoch, if it is in flight.
    pub fn abort(&mut self, epoch: u64)
        requires
            old(self)@.valid(),
        ensures
            final(self)@.valid(),
            final(self)@ == old(self)@.aborted(epoch),
    {
        self.in_flight.remove(&epoch);
        proof {
            assert(self@.in_flight =~= old(self)@.in_flight.remove(epoch));
            vstd::set_lib::lemma_len_subset(self@.in_flight.dom(), old(self)@.in_flight.dom());
        }
    }

    /// Resumes after the given committed epoch, with nothing in flight.
    pub fn recover(&mut self, last_committed: u64)
        requires
            old(self)@.valid(),
        ensures
            final(self)@.valid(),
            final(self)@ == old(self)@.recovered(last_committed),
    {
        self.last_committed = Some(last_committed);
        self.last_triggered = Some(last_committed);
        self.in_flight = AssocMap::new();
        assert(self@.in_flight =~= Map::<u64, EpochModel>::empty());
    }

    /// The last committed epoch.
    pub fn last_committed(&self) -> (committed: Option<u64>)
        ensures
            committed == self@.last_committed,
    {
        self.last_committed
    }

    /// The number of epochs in flight.
    pub fn in_flight_count(&self) -> (count: usize)
        ensures
            count == self@.in_flight.dom().len(),
    {
        assert(self@.in_flight.dom() =~= self.in_flight@.dom());
        self.in_flight.len()
    }
}

/// Some key of the map that is at most `bound`.
fn first_up_to(map: &AssocMap<u64, EpochState>, bound: u64) -> (found: Option<u64>)
    ensures
        match found {
            Some(e) => map@.contains_key(e) && e <= bound,
            None => forall|e: u64| #[trigger] map@.contains_key(e) ==> e > bound,
        },
{
    let n: usize = map.len();
    let mut i: usize = 0;
    while i < n
        invariant
            n == map.entries().len(),
            i <= n,
            forall|j: int| 0 <= j < i ==> (#[trigger] map.entries()[j]).0 > bound,
        decreases n - i,
    {
        let entry = map.entry(i);
        if entry.0 <= bound {
            return Some(entry.0);
        }
        i = i + 1;
    }
    None
}

/// A repeated acknowledgement of a task changes nothing and completes nothing, whatever it
/// records.
pub proof fn law_ack_idempotent(
    c: CoordinatorModel,
    epoch: u64,
    task: u64,
    first: EpochAck,
    again: EpochAck,
)
    requires
        c.valid(),
        c.expected.contains(task),
    ensures
        c.acknowledged(epoch, task, first).acknowledged(epoch, task, again) == c.acknowledged(
            epoch,
            task,
            first,
        ),
        c.acknowledged(epoch, task, first).checkpoint(epoch, task, again) is None,
{
    let d = c.acknowledged(epoch, task, first);
    if !c.ignores(epoch) && !c.completes(epoch, task) {
        assert(d.in_flight[epoch].acked =~= c.in_flight[epoch].acked.insert(task));
        assert(d.in_flight[epoch].acked.insert(task) =~= d.in_flight[epoch].acked);
        assert(d.in_flight.insert(epoch, d.in_flight[epoch]) =~= d.in_flight);
    }
}

/// An acknowledgement yields a checkpoint exactly when, with it, every expected task has
/// acknowledged the epoch in flight.
pub proof fn law_complete_iff_every_task_acked(
    c: CoordinatorModel,
    epoch: u64,
    task: u64,
    ack: EpochAck,
)
    requires
        c.valid(),
        c.expected.contains(task),
    ensures
        c.checkpoint(epoch, task, ack) is Some <==> c.in_flight.contains_key(epoch) && forall|t: u64| #[trigger]
            c.expected.contains(t) ==> t == task || c.in_flight[epoch].acked.contains(t),
{
    if c.in_flight.contains_key(epoch) {
        let all = c.in_flight[epoch].acked.insert(task);
        if forall|t: u64| #[trigger]
            c.expected.contains(t) ==> t == task || c.in_flight[epoch].acked.contains(t) {
            assert(all =~= c.expected);
        }
        if all == c.expected {
            assert forall|t: u64| #[trigger] c.expected.contains(t) implies t == task
                || c.in_flight[epoch].acked.contains(t) by {
                assert(all.contains(t));
            }
        }
    }
}

/// Completing an epoch commits it, drops every epoch up to it and leaves the later ones alone.
pub proof fn law_commit_subsumes_earlier(
    c: CoordinatorModel,
    epoch: u64,
    task: u64,
    ack: EpochAck,
)
    requires
        c.valid(),
        c.checkpoint(epoch, task, ack) is Some,
    ensures
        ({
            let d = c.acknowledged(epoch, task, ack);
            &&& d.last_committed == Some(epoch)
            &&& forall|e: u64| e <= epoch ==> !#[trigger] d.in_flight.contains_key(e)
            &&& forall|e: u64|
                e > epoch ==> (#[trigger] d.in_flight.contains_key(e) <==> c.in_flight.contains_key(
                    e,
                )) && (d.in_flight.contains_key(e) ==> d.in_flight[e] == c.in_flight[e])
        }),
{
}

/// The last committed epoch never goes back while the coordinator runs.
pub proof fn law_committed_is_monotonic(
    c: CoordinatorModel,
    epoch: u64,
    task: u64,
    ack: EpochAck,
)
    requires
        c.valid(),
        c.last_committed is Some,
    ensures
        c.triggered().last_committed == c.last_committed,
        c.aborted(epoch).last_committed == c.last_committed,
        c.acknowledged(epoch, task, ack).last_committed is Some,
        c.acknowledged(epoch, task, ack).last_committed->0 >= c.last_committed->0,
{
}

/// An acknowledgement of a committed, aborted or never triggered epoch is ignored.
pub proof fn law_stale_acks_are_ignored(
    c: CoordinatorModel,
    epoch: u64,
    task: u64,
    ack: EpochAck,
)
    requires
        c.valid(),
        c.last_committed is Some && epoch <= c.last_committed->0 || c.last_triggered is None
            || epoch > c.last_triggered->0,
    ensures
        c.acknowledged(epoch, task, ack) == c,
        c.checkpoint(epoch, task, ack) is None,
{
}

/// After an abort, an acknowledgement of the aborted epoch is ignored.
pub proof fn law_ack_after_abort_is_ignored(
    c: CoordinatorModel,
    epoch: u64,
    task: u64,
    ack: EpochAck,
)
    requires
        c.valid(),
    ensures
        c.aborted(epoch).acknowledged(epoch, task, ack) == c.aborted(epoch),
        c.aborted(epoch).checkpoint(epoch, task, ack) is None,
{
}

/// A triggered epoch is later than every epoch in flight and every committed one.
pub proof fn law_triggered_epoch_is_new(c: CoordinatorModel)
    requires
        c.valid(),
    ensures
        forall|e: u64| #[trigger] c.in_flight.contains_key(e) ==> e < c.next_epoch(),
        c.last_committed is Some ==> c.last_committed->0 < c.next_epoch(),
{
}

/// After recovery the epoch clock continues right behind the committed epoch, and nothing is in
/// flight.
pub proof fn law_recovery_resumes_the_clock(c: CoordinatorModel, committed: u64)
    requires
        c.valid(),
    ensures
        c.recovered(committed).valid(),
        c.recovered(committed).next_epoch() == committed + 1,
        c.recovered(committed).in_flight.dom().len() == 0,
{
}

/// Something that happens to a coordinator between two recoveries.
pub enum Step {
    Trigger,
    Ack { epoch: u64, task: u64, ack: EpochAck },
    Abort { epoch: u64 },
}

/// Whether a step can happen: an epoch is triggered only where there is room, and only expected
/// tasks acknowledge.
pub open spec fn can_happen(c: CoordinatorModel, step: Step) -> bool {
    match step {
        Step::Trigger => !c.at_capacity() && c.next_epoch() <= u64::MAX,
        Step::Ack { task, .. } => c.expected.contains(task),
        Step::Abort { .. } => true,
    }
}

/// The state after a step.
pub open spec fn stepped(c: CoordinatorModel, step: Step) -> CoordinatorModel {
    match step {
        Step::Trigger => c.triggered(),
        Step::Ack { epoch, task, ack } => c.acknowledged(epoch, task, ack),
        Step::Abort { epoch } => c.aborted(epoch),
    }
}

/// Whether states lead from one to the next by steps that can happen.
pub open spec fn is_history(states: Seq<CoordinatorModel>, steps: Seq<Step>) -> bool {
    &&& states.len() == steps.len() + 1
    &&& forall|i: int|
        0 <= i < steps.len() ==> can_happen(states[i], #[trigger] steps[i]) && states[i + 1]
            == stepped(states[i], steps[i])
}

/// Whether a step is an acknowledgement of an epoch by a task.
pub open spec fn is_ack_by(step: Step, epoch: u64, task: u64) -> bool {
    step matches Step::Ack { epoch: e, task: t, .. } && e == epoch && t == task
}

/// Whether the `i`-th step is the first acknowledgement of an epoch by its task.
pub open spec fn is_first_ack(steps: Seq<Step>, epoch: u64, i: int) -> bool {
    &&& 0 <= i < steps.len()
    &&& steps[i] matches Step::Ack { epoch: e, task, .. } && e == epoch && forall|j: int|
        0 <= j < i ==> !is_ack_by(#[trigger] steps[j], epoch, task)
}

/// Whether offsets are those of the first acknowledgements of an epoch: each offset that one of them
/// records is there, with the value of the last of them that records it, and there are no others.
pub open spec fn are_acked_offsets(
    offsets: Map<Seq<char>, i64>,
    steps: Seq<Step>,
    epoch: u64,
) -> bool {
    &&& forall|i: int, k: Seq<char>| #[trigger]
        is_first_ack(steps, epoch, i) && #[trigger] steps[i]->ack.offsets@.contains_key(k)
            ==> offsets.contains_key(k)
    &&& forall|k: Seq<char>| #[trigger]
        offsets.contains_key(k) ==> exists|i: int| #[trigger]
            is_first_ack(steps, epoch, i) && steps[i]->ack.offsets@.contains_key(k) && offsets[k]
                == steps[i]->ack.offsets@[k] && forall|j: int|
                j > i && #[trigger] is_first_ack(steps, epoch, j)
                    ==> !steps[j]->ack.offsets@.contains_key(k)
}

/// Whether state pointers are those of the first acknowledgements of an epoch: each pointer that one
/// of them records is there, with the value of the last of them that records it, and there are no
/// others.
pub open spec fn are_acked_states(
    state_ptrs: Map<Seq<char>, String>,
    steps: Seq<Step>,
    epoch: u64,
) -> bool {
    &&& forall|i: int, k: Seq<char>| #[trigger]
        is_first_ack(steps, epoch, i) && #[trigger] steps[i]->ack.state_ptrs@.contains_key(k)
            ==> state_ptrs.contains_key(k)
    &&& forall|k: Seq<char>| #[trigger]
        state_ptrs.contains_key(k) ==> exists|i: int| #[trigger]
            is_first_ack(steps, epoch, i) && steps[i]->ack.state_ptrs@.contains_key(k)
                && state_ptrs[k] == steps[i]->ack.state_ptrs@[k] && forall|j: int|
                j > i && #[trigger] is_first_ack(steps, epoch, j)
                    ==> !steps[j]->ack.state_ptrs@.contains_key(k)
}

/// Whether the tasks are those that have acknowledged an epoch.
pub open spec fn are_acking_tasks(tasks: Set<u64>, steps: Seq<Step>, epoch: u64) -> bool {
    forall|t: u64| #[trigger]
        tasks.contains(t) <==> exists|i: int|
            0 <= i < steps.len() && is_ack_by(#[trigger] steps[i], epoch, t)
}

proof fn lemma_first_ack_push(steps: Seq<Step>, step: Step, epoch: u64, i: int)
    requires
        0 <= i < steps.len(),
    ensures
        is_first_ack(steps.push(step), epoch, i) == is_first_ack(steps, epoch, i),
{
    let all = steps.push(step);
    if let Step::Ack { epoch: e, task, .. } = steps[i] {
        assert(forall|j: int|
            0 <= j < i ==> is_ack_by(#[trigger] all[j], epoch, task) == is_ack_by(
                steps[j],
                epoch,
                task,
            ));
        if forall|j: int| 0 <= j < i ==> !is_ack_by(#[trigger] all[j], epoch, task) {
            assert forall|j: int| 0 <= j < i implies !is_ack_by(#[trigger] steps[j], epoch, task) by {
                assert(!is_ack_by(all[j], epoch, task));
            }
        }
    }
}

/// A step that is no first acknowledgement of an epoch adds nothing to its record.
proof fn lemma_other_step(model: EpochModel, steps: Seq<Step>, step: Step, epoch: u64)
    requires
        are_acking_tasks(model.acked, steps, epoch),
        are_acked_offsets(model.offsets, steps, epoch),
        are_acked_states(model.state_ptrs, steps, epoch),
        step matches Step::Ack { epoch: e, task, .. } ==> e != epoch || model.acked.contains(task),
    ensures
        are_acking_tasks(model.acked, steps.push(step), epoch),
        are_acked_offsets(model.offsets, steps.push(step), epoch),
        are_acked_states(model.state_ptrs, steps.push(step), epoch),
{
    let all = steps.push(step);
    let n = steps.len() as int;
    assert forall|t: u64| #[trigger] model.acked.contains(t) <==> exists|i: int|
        0 <= i < all.len() && is_ack_by(#[trigger] all[i], epoch, t) by {
        if model.acked.contains(t) {
            let i = choose|i: int| 0 <= i < steps.len() && is_ack_by(#[trigger] steps[i], epoch, t);
            assert(is_ack_by(all[i], epoch, t));
        }
        if exists|i: int| 0 <= i < all.len() && is_ack_by(#[trigger] all[i], epoch, t) {
            let i = choose|i: int| 0 <= i < all.len() && is_ack_by(#[trigger] all[i], epoch, t);
            if i < n {
                assert(is_ack_by(steps[i], epoch, t));
            }
        }
    }
    assert(!is_first_ack(all, epoch, n)) by {
        if let Step::Ack { epoch: e, task, .. } = step {
            if e == epoch {
                let i = choose|i: int|
                    0 <= i < steps.len() && is_ack_by(#[trigger] steps[i], epoch, task);
                assert(is_ack_by(all[i], epoch, task));
            }
        }
    }
    assert forall|i: int| #[trigger] is_first_ack(all, epoch, i) implies is_first_ack(
        steps,
        epoch,
        i,
    ) && all[i] == steps[i] by {
        assert(i != n);
        lemma_first_ack_push(steps, step, epoch, i);
    }
    assert forall|i: int| #[trigger] is_first_ack(steps, epoch, i) implies is_first_ack(
        all,
        epoch,
        i,
    ) && all[i] == steps[i] by {
        lemma_first_ack_push(steps, step, epoch, i);
    }
    assert forall|k: Seq<char>| #[trigger]
        model.offsets.contains_key(k) implies exists|i: int| #[trigger]
        is_first_ack(all, epoch, i) && all[i]->ack.offsets@.contains_key(k) && model.offsets[k]
            == all[i]->ack.offsets@[k] && forall|j: int|
            j > i && #[trigger] is_first_ack(all, epoch, j)
                ==> !all[j]->ack.offsets@.contains_key(k) by {
        let i = choose|i: int| #[trigger]
            is_first_ack(steps, epoch, i) && steps[i]->ack.offsets@.contains_key(k)
                && model.offsets[k] == steps[i]->ack.offsets@[k] && forall|j: int|
                j > i && #[trigger] is_first_ack(steps, epoch, j)
                    ==> !steps[j]->ack.offsets@.contains_key(k);
        assert(is_first_ack(all, epoch, i));
    }
    assert forall|k: Seq<char>| #[trigger]
        model.state_ptrs.contains_key(k) implies exists|i: int| #[trigger]
        is_first_ack(all, epoch, i) && all[i]->ack.state_ptrs@.contains_key(k)
            && model.state_ptrs[k] == all[i]->ack.state_ptrs@[k] && forall|j: int|
            j > i && #[trigger] is_first_ack(all, epoch, j)
                ==> !all[j]->ack.state_ptrs@.contains_key(k) by {
        let i = choose|i: int| #[trigger]
            is_first_ack(steps, epoch, i) && steps[i]->ack.state_ptrs@.contains_key(k)
                && model.state_ptrs[k] == steps[i]->ack.state_ptrs@[k] && forall|j: int|
                j > i && #[trigger] is_first_ack(steps, epoch, j)
                    ==> !steps[j]->ack.state_ptrs@.contains_key(k);
        assert(is_first_ack(all, epoch, i));
    }
}

/// A first acknowledgement of an epoch adds what it records.
proof fn lemma_first_step(
    model: EpochModel,
    steps: Seq<Step>,
    epoch: u64,
    task: u64,
    ack: EpochAck,
)
    requires
        are_acking_tasks(model.acked, steps, epoch),
        are_acked_offsets(model.offsets, steps, epoch),
        are_acked_states(model.state_ptrs, steps, epoch),
        !model.acked.contains(task),
    ensures
        ({
            let after = model.acknowledged(task, ack);
            let all = steps.push(Step::Ack { epoch, task, ack });
            &&& are_acking_tasks(after.acked, all, epoch)
            &&& are_acked_offsets(after.offsets, all, epoch)
            &&& are_acked_states(after.state_ptrs, all, epoch)
        }),
{
    let step = Step::Ack { epoch, task, ack };
    let all = steps.push(step);
    let n = steps.len() as int;
    let after = model.acknowledged(task, ack);
    assert(is_ack_by(all[n], epoch, task));
    assert forall|t: u64| #[trigger] after.acked.contains(t) <==> exists|i: int|
        0 <= i < all.len() && is_ack_by(#[trigger] all[i], epoch, t) by {
        if model.acked.contains(t) {
            let i = choose|i: int| 0 <= i < steps.len() && is_ack_by(#[trigger] steps[i], epoch, t);
            assert(is_ack_by(all[i], epoch, t));
        }
        if exists|i: int| 0 <= i < all.len() && is_ack_by(#[trigger] all[i], epoch, t) {
            let i = choose|i: int| 0 <= i < all.len() && is_ack_by(#[trigger] all[i], epoch, t);
            if i < n {
                assert(is_ack_by(steps[i], epoch, t));
                assert(model.acked.contains(t));
            }
        }
    }
    assert(is_first_ack(all, epoch, n)) by {
        assert forall|j: int| 0 <= j < n implies !is_ack_by(#[trigger] all[j], epoch, task) by {
            if is_ack_by(all[j], epoch, task) {
                assert(is_ack_by(steps[j], epoch, task));
                assert(model.acked.contains(task));
            }
        }
    }
    assert forall|i: int| #[trigger] is_first_ack(all, epoch, i) && i != n implies is_first_ack(
        steps,
        epoch,
        i,
    ) && all[i] == steps[i] by {
        lemma_first_ack_push(steps, step, epoch, i);
    }
    assert forall|i: int| #[trigger] is_first_ack(steps, epoch, i) implies is_first_ack(
        all,
        epoch,
        i,
    ) && all[i] == steps[i] by {
        lemma_first_ack_push(steps, step, epoch, i);
    }
    assert forall|k: Seq<char>| #[trigger]
        after.offsets.contains_key(k) implies exists|i: int| #[trigger]
        is_first_ack(all, epoch, i) && all[i]->ack.offsets@.contains_key(k) && after.offsets[k]
            == all[i]->ack.offsets@[k] && forall|j: int|
            j > i && #[trigger] is_first_ack(all, epoch, j)
                ==> !all[j]->ack.offsets@.contains_key(k) by {
        if ack.offsets@.contains_key(k) {
            assert(is_first_ack(all, epoch, n));
        } else {
            assert(model.offsets.contains_key(k));
            let i = choose|i: int| #[trigger]
                is_first_ack(steps, epoch, i) && steps[i]->ack.offsets@.contains_key(k)
                    && model.offsets[k] == steps[i]->ack.offsets@[k] && forall|j: int|
                    j > i && #[trigger] is_first_ack(steps, epoch, j)
                        ==> !steps[j]->ack.offsets@.contains_key(k);
            assert(is_first_ack(all, epoch, i));
        }
    }
    assert forall|k: Seq<char>| #[trigger]
        after.state_ptrs.contains_key(k) implies exists|i: int| #[trigger]
        is_first_ack(all, epoch, i) && all[i]->ack.state_ptrs@.contains_key(k)
            && after.state_ptrs[k] == all[i]->ack.state_ptrs@[k] && forall|j: int|
            j > i && #[trigger] is_first_ack(all, epoch, j)
                ==> !all[j]->ack.state_ptrs@.contains_key(k) by {
        if ack.state_ptrs@.contains_key(k) {
            assert(is_first_ack(all, epoch, n));
        } else {
            assert(model.state_ptrs.contains_key(k));
            let i = choose|i: int| #[trigger]
                is_first_ack(steps, epoch, i) && steps[i]->ack.state_ptrs@.contains_key(k)
                    && model.state_ptrs[k] == steps[i]->ack.state_ptrs@[k] && forall|j: int|
                    j > i && #[trigger] is_first_ack(steps, epoch, j)
                        ==> !steps[j]->ack.state_ptrs@.contains_key(k);
            assert(is_first_ack(all, epoch, i));
        }
    }
}

proof fn lemma_history(states: Seq<CoordinatorModel>, steps: Seq<Step>, epoch: u64)
    requires
        is_history(states, steps),
        states[0].last_triggered is Some,
        epoch <= states[0].last_triggered->0,
        states[0].in_flight.contains_key(epoch),
        states[0].last_committed matches Some(e) ==> e < epoch,
        states[0].in_flight[epoch].acked == Set::<u64>::empty(),
        states[0].in_flight[epoch].offsets == Map::<Seq<char>, i64>::empty(),
        states[0].in_flight[epoch].state_ptrs == Map::<Seq<char>, String>::empty(),
    ensures
        states.last().last_triggered is Some,
        epoch <= states.last().last_triggered->0,
        states.last().expected == states[0].expected,
        states.last().in_flight.contains_key(epoch) ==> {
            let model = states.last().in_flight[epoch];
            &&& states.last().last_committed matches Some(e) ==> e < epoch
            &&& are_acking_tasks(model.acked, steps, epoch)
            &&& are_acked_offsets(model.offsets, steps, epoch)
            &&& are_acked_states(model.state_ptrs, steps, epoch)
        },
    decreases steps.len(),
{
    if steps.len() == 0 {
        let model = states[0].in_flight[epoch];
        assert(states.last() == states[0]);
        assert(are_acking_tasks(model.acked, steps, epoch));
        assert(are_acked_offsets(model.offsets, steps, epoch));
        assert(are_acked_states(model.state_ptrs, steps, epoch));
    } else {
        let n = steps.len() - 1;
        let earlier = states.drop_last();
        let before = steps.drop_last();
        assert(is_history(earlier, before)) by {
            assert forall|i: int| 0 <= i < before.len() implies can_happen(
                earlier[i],
                #[trigger] before[i],
            ) && earlier[i + 1] == stepped(earlier[i], before[i]) by {
                assert(can_happen(states[i], steps[i]));
            }
        }
        lemma_history(earlier, before, epoch);
        let c = states[n];
        let d = states[n + 1];
        assert(can_happen(states[n], steps[n]));
        assert(c == earlier.last());
        assert(before.push(steps[n]) =~= steps);
        if d.in_flight.contains_key(epoch) {
            assert(c.in_flight.contains_key(epoch));
            match steps[n] {
                Step::Ack { epoch: e, task, ack } => {
                    if e == epoch && !c.in_flight[epoch].acked.contains(task) {
                        lemma_first_step(c.in_flight[epoch], before, epoch, task, ack);
                        assert(d.in_flight[epoch] == c.in_flight[epoch].acknowledged(task, ack));
                    } else {
                        assert(d.in_flight[epoch] == c.in_flight[epoch]);
                        lemma_other_step(c.in_flight[epoch], before, steps[n], epoch);
                    }
                },
                _ => {
                    assert(d.in_flight[epoch] == c.in_flight[epoch]);
                    lemma_other_step(c.in_flight[epoch], before, steps[n], epoch);
                },
            }
        }
    }
}

/// The checkpoint of an epoch holds what all tasks recorded. Whatever happens after the epoch was
/// triggered, an acknowledgement of it, while it is in flight, gives a checkpoint exactly where by
/// then every expected task has acknowledged the epoch. The checkpoint then holds each offset and
/// each state pointer that the first acknowledgement of a task records, with the value of the last
/// of them that records it, and nothing else.
pub proof fn law_checkpoint_holds_what_every_task_recorded(
    start: CoordinatorModel,
    states: Seq<CoordinatorModel>,
    steps: Seq<Step>,
    epoch: u64,
    task: u64,
    ack: EpochAck,
)
    requires
        start.valid(),
        !start.at_capacity(),
        start.next_epoch() == epoch,
        is_history(states, steps),
        states[0] == start.triggered(),
        states.last().valid(),
        start.expected.contains(task),
    ensures
        ({
            let c = states.last();
            let all = steps.push(Step::Ack { epoch, task, ack });
            &&& c.in_flight.contains_key(epoch) ==> (c.checkpoint(epoch, task, ack) is Some
                <==> forall|t: u64| #[trigger]
                start.expected.contains(t) ==> exists|i: int|
                    0 <= i < all.len() && is_ack_by(#[trigger] all[i], epoch, t))
            &&& c.checkpoint(epoch, task, ack) matches Some(gc) ==> {
                &&& gc.epoch == epoch
                &&& are_acked_offsets(gc.offsets, all, epoch)
                &&& are_acked_states(gc.state_ptrs, all, epoch)
            }
        }),
{
    let all = steps.push(Step::Ack { epoch, task, ack });
    lemma_history(states, steps, epoch);
    let c = states.last();
    if c.in_flight.contains_key(epoch) {
        let model = c.in_flight[epoch];
        let after = model.acknowledged(task, ack);
        if model.acked.contains(task) {
            lemma_other_step(model, steps, Step::Ack { epoch, task, ack }, epoch);
        } else {
            lemma_first_step(model, steps, epoch, task, ack);
        }
        assert(are_acking_tasks(after.acked, all, epoch));
        assert(after.acked =~= model.acked.insert(task));
        if forall|t: u64| #[trigger]
            c.expected.contains(t) ==> exists|i: int|
                0 <= i < all.len() && is_ack_by(#[trigger] all[i], epoch, t) {
            assert forall|t: u64| after.acked.contains(t) == c.expected.contains(t) by {
                if c.expected.contains(t) {
                    assert(exists|i: int|
                        0 <= i < all.len() && is_ack_by(#[trigger] all[i], epoch, t));
                }
            }
            assert(after.acked =~= c.expected);
        }
        if after.acked == c.expected {
            assert forall|t: u64| #[trigger] c.expected.contains(t) implies exists|i: int|
                0 <= i < all.len() && is_ack_by(#[trigger] all[i], epoch, t) by {
                assert(after.acked.contains(t));
            }
        }
    }
}

/// Where no two tasks record the same key, the checkpoint is the union: each offset and each state
/// pointer of each task's first acknowledgement is in it with its value.
pub proof fn law_disjoint_records_are_united(
    offsets: Map<Seq<char>, i64>,
    state_ptrs: Map<Seq<char>, String>,
    steps: Seq<Step>,
    epoch: u64,
    i: int,
    key: Seq<char>,
)
    requires
        are_acked_offsets(offsets, steps, epoch),
        are_acked_states(state_ptrs, steps, epoch),
        is_first_ack(steps, epoch, i),
        forall|j: int|
            j != i && #[trigger] is_first_ack(steps, epoch, j)
                ==> !steps[j]->ack.offsets@.contains_key(key)
                && !steps[j]->ack.state_ptrs@.contains_key(key),
    ensures
        offsets.contains_key(key) == steps[i]->ack.offsets@.contains_key(key),
        offsets.contains_key(key) ==> offsets[key] == steps[i]->ack.offsets@[key],
        state_ptrs.contains_key(key) == steps[i]->ack.state_ptrs@.contains_key(key),
        state_ptrs.contains_key(key) ==> state_ptrs[key] == steps[i]->ack.state_ptrs@[key],
{
    if offsets.contains_key(key) {
        let j = choose|j: int| #[trigger]
            is_first_ack(steps, epoch, j) && steps[j]->ack.offsets@.contains_key(key)
                && offsets[key] == steps[j]->ack.offsets@[key];
        assert(j == i);
    }
    if state_ptrs.contains_key(key) {
        let j = choose|j: int| #[trigger]
            is_first_ack(steps, epoch, j) && steps[j]->ack.state_ptrs@.contains_key(key)
                && state_ptrs[key] == steps[j]->ack.state_ptrs@[key];
        assert(j == i);
    }
}

/// Epochs are numbered without gaps: the first is zero, and each that is triggered is one more than
/// the last triggered one. It starts without any acknowledgement, and the others stay as they are.
pub proof fn law_epochs_are_consecutive(c: CoordinatorModel)
    requires
        c.valid(),
        c.next_epoch() <= u64::MAX,
    ensures
        c.last_triggered is None && c.last_committed is None ==> c.next_epoch() == 0,
        c.last_triggered is Some ==> c.next_epoch() == c.last_triggered->0 + 1,
        c.triggered().last_triggered is Some,
        c.triggered().last_triggered->0 == c.next_epoch(),
        c.triggered().next_epoch() == c.next_epoch() + 1,
        c.triggered().in_flight.contains_key(c.next_epoch() as u64),
        c.triggered().in_flight[c.next_epoch() as u64].acked.len() == 0,
        forall|e: u64|
            e != c.next_epoch() ==> #[trigger] c.triggered().in_flight.contains_key(e)
                == c.in_flight.contains_key(e),
        forall|e: u64| #[trigger]
            c.in_flight.contains_key(e) ==> c.triggered().in_flight[e] == c.in_flight[e],
        c.triggered().expected == c.expected,
{
    law_triggered_epoch_is_new(c);
}

/// An epoch is refused exactly where as many epochs as allowed are in flight, and an abort makes
/// room again: it drops the epoch, and leaves all others and the clock alone.
pub proof fn law_abort_makes_room(c: CoordinatorModel, epoch: u64)
    requires
        c.valid(),
    ensures
        c.at_capacity() <==> c.in_flight.dom().len() == c.max_in_flight,
        !c.aborted(epoch).in_flight.contains_key(epoch),
        c.in_flight.contains_key(epoch) ==> !c.aborted(epoch).at_capacity(),
        forall|e: u64|
            e != epoch ==> #[trigger] c.aborted(epoch).in_flight.contains_key(e)
                == c.in_flight.contains_key(e),
        forall|e: u64|
            e != epoch && #[trigger] c.in_flight.contains_key(e) ==> c.aborted(epoch).in_flight[e]
                == c.in_flight[e],
        c.aborted(epoch).next_epoch() == c.next_epoch(),
        c.aborted(epoch).last_committed == c.last_committed,
{
    if c.in_flight.contains_key(epoch) {
        assert(c.aborted(epoch).in_flight.dom() =~= c.in_flight.dom().remove(epoch));
    }
}

/// An acknowledgement that completes nothing concerns its own epoch alone: the others, the clock and
/// the last commit stay as they are.
pub proof fn law_acks_concern_their_epoch(
    c: CoordinatorModel,
    epoch: u64,
    task: u64,
    ack: EpochAck,
    other: u64,
)
    requires
        c.valid(),
        other != epoch,
        c.checkpoint(epoch, task, ack) is None,
    ensures
        c.acknowledged(epoch, task, ack).in_flight.contains_key(other)
            == c.in_flight.contains_key(other),
        c.in_flight.contains_key(other) ==> c.acknowledged(epoch, task, ack).in_flight[other]
            == c.in_flight[other],
        c.acknowledged(epoch, task, ack).in_flight.contains_key(epoch)
            == c.in_flight.contains_key(epoch),
        c.acknowledged(epoch, task, ack).last_committed == c.last_committed,
        c.acknowledged(epoch, task, ack).last_triggered == c.last_triggered,
        c.acknowledged(epoch, task, ack).expected == c.expected,
{
}

} // verus!
