//! Running the tasks of a worker.

use vstd::prelude::*;

use crate::assoc::AssocMap;
use crate::ids::TaskKey;
use crate::text;

verus! {

/// The tasks that run, each with the signal that stops it.
#[derive(Debug)]
pub struct TaskRunner<S> {
    signals: AssocMap<TaskKey, S>,
}

impl<S> View for TaskRunner<S> {
    type V = Map<TaskKey, S>;

    closed spec fn view(&self) -> Map<TaskKey, S> {
        self.signals@
    }
}

impl<S> TaskRunner<S> {
    /// A runner without tasks.
    pub fn new() -> (runner: Self)
        ensures
            runner@ == Map::<TaskKey, S>::empty(),
    {
        TaskRunner { signals: AssocMap::new() }
    }

    /// Records a task that started, with the signal that stops it.
    pub fn run_task(&mut self, key: TaskKey, signal: S)
        ensures
            final(self)@ == old(self)@.insert(key, signal),
    {
        self.signals.insert(key, signal);
    }

    /// Forgets a task: the signal that stops it, where it runs.
    pub fn stop_task(&mut self, key: &TaskKey) -> (signal: Option<S>)
        ensures
            final(self)@ == old(self)@.remove(*key),
            match signal {
                Some(s) => old(self)@.contains_key(*key) && old(self)@[*key] == s,
                None => !old(self)@.contains_key(*key),
            },
    {
        self.signals.remove(key)
    }
}

/// Stopping a task twice signals it once: a task that was stopped has no signal left.
pub proof fn law_task_is_stopped_once<S>(running: Map<TaskKey, S>, key: TaskKey)
    ensures
        !running.remove(key).contains_key(key),
        running.remove(key).remove(key) == running.remove(key),
{
    assert(running.remove(key).remove(key) =~= running.remove(key));
}

/// The message of a task whose plan could not be executed.
pub fn plan_failure(error: &str) -> (message: String)
    ensures
        message@ == "failed to execute plan: "@ + error@,
{
    text::concat("failed to execute plan: ", error)
}

/// A projection over a source: the functions that give its columns, where they are function calls;
/// the source, and whether it parses its values already; and whether its column is a struct.
#[derive(Debug)]
pub struct ProjectionShape {
    pub functions: Vec<Option<String>>,
    pub source_parses: Option<bool>,
    pub is_struct: bool,
}

/// Whether a projection only parses the values of a source that does not.
pub open spec fn fuses(shape: ProjectionShape) -> bool {
    &&& shape.functions@.len() == 1
    &&& shape.functions@[0] matches Some(name) && name@ == "from_json"@
    &&& shape.source_parses == Some(false)
    &&& shape.is_struct
}

/// Whether a projection is pushed into the source below it: where that is asked for, and the
/// projection's one column is the parsed value of a source that does not parse it yet.
pub fn is_source_fusion(enabled: bool, shape: &ProjectionShape) -> (fuse: bool)
    ensures
        fuse == (enabled && fuses(*shape)),
{
    if !enabled || shape.functions.len() != 1 {
        return false;
    }
    let parses = match &shape.functions[0] {
        Some(name) => text::str_eq(name.as_str(), "from_json"),
        None => false,
    };
    let raw = match shape.source_parses {
        Some(parsed) => !parsed,
        None => false,
    };
    parses && raw && shape.is_struct
}

/// The locations that a task writes to: those of its own partition, among none for the others;
/// nothing where the plan has no such partition.
pub fn write_locations<L>(partitions: usize, partition: usize, own: Vec<L>) -> (locations: Option<
    Vec<Vec<L>>,
>)
    ensures
        match locations {
            Some(all) => {
                &&& partition < partitions
                &&& all@.len() == partitions
                &&& all@[partition as int] == own
                &&& forall|i: int|
                    0 <= i < partitions && i != partition ==> (#[trigger] all@[i])@.len() == 0
            },
            None => partition >= partitions,
        },
{
    if partition >= partitions {
        return None;
    }
    let mut all: Vec<Vec<L>> = Vec::new();
    while all.len() < partition
        invariant
            all@.len() <= partition < partitions,
            forall|i: int| 0 <= i < all@.len() ==> (#[trigger] all@[i])@.len() == 0,
        decreases partition - all@.len(),
    {
        all.push(Vec::new());
    }
    all.push(own);
    while all.len() < partitions
        invariant
            partition < all@.len() <= partitions,
            all@[partition as int] == own,
            forall|i: int|
                0 <= i < all@.len() && i != partition ==> (#[trigger] all@[i])@.len() == 0,
        decreases partitions - all@.len(),
    {
        all.push(Vec::new());
    }
    Some(all)
}

/// A source parses its values where a projection does nothing but parse them into structures, and no
/// source below parses them yet.
pub proof fn law_only_plain_parsing_is_fused(shape: ProjectionShape)
    ensures
        fuses(shape) ==> shape.functions@.len() == 1 && shape.functions@[0] is Some
            && shape.functions@[0]->0@ == "from_json"@,
        !shape.is_struct || shape.source_parses != Some(false) || shape.functions@.len() != 1
            ==> !fuses(shape),
        shape.functions@.len() == 1 && shape.functions@[0] is Some && shape.functions@[0]->0@
            == "from_json"@ && shape.source_parses == Some(false) && shape.is_struct ==> fuses(
            shape,
        ),
{
}

} // verus!
