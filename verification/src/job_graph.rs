//! Cutting a physical plan into stages that run apart from each other.

use vstd::prelude::*;

use crate::task_assigner::TaskPlacement;
use crate::text;
use crate::text::decimal;

verus! {

/// Where the keys of a hash partitioning are found.
#[derive(Debug, Clone, Copy, PartialEq, Eq, Structural)]
pub enum HashKeys {
    /// With an operator.
    Operator(Option<u64>),
    /// On the left side of a join's condition.
    JoinLeft(Option<u64>),
    /// On the right side of a join's condition.
    JoinRight(Option<u64>),
}

/// How rows are spread over partitions.
#[derive(Debug, Clone, Copy, PartialEq, Eq, Structural)]
pub enum PlanPartitioning {
    RoundRobinBatch(usize),
    Hash { keys: HashKeys, partitions: usize },
    UnknownPartitioning(usize),
}

impl PlanPartitioning {
    /// The number of partitions.
    pub open spec fn count(self) -> usize {
        match self {
            PlanPartitioning::RoundRobinBatch(n) => n,
            PlanPartitioning::Hash { keys: _, partitions } => partitions,
            PlanPartitioning::UnknownPartitioning(n) => n,
        }
    }

    /// The number of partitions.
    pub fn partition_count(&self) -> (n: usize)
        ensures
            n == self.count(),
    {
        match self {
            PlanPartitioning::RoundRobinBatch(n) => *n,
            PlanPartitioning::Hash { keys: _, partitions } => *partitions,
            PlanPartitioning::UnknownPartitioning(n) => *n,
        }
    }
}

/// How a hash join treats the partitions of its sides.
#[derive(Debug, Clone, Copy, PartialEq, Eq, Structural)]
pub enum PartitionMode {
    Partitioned,
    CollectLeft,
    Auto,
}

/// The rows that a join gives.
#[derive(Debug, Clone, Copy, PartialEq, Eq, Structural)]
pub enum JoinType {
    Inner,
    Left,
    Right,
    Full,
    LeftSemi,
    RightSemi,
    LeftAnti,
    RightAnti,
    LeftMark,
    RightMark,
}

/// How a stage reads the output of another.
#[derive(Debug, Clone, Copy, PartialEq, Eq, Structural)]
pub enum InputMode {
    /// Each partition reads the partition with its number.
    Forward,
    /// All partitions are merged.
    Merge,
    /// Each partition reads its channel of all partitions, once.
    Shuffle,
    /// Each partition reads its channel of all partitions, as often as it needs.
    Broadcast,
}

/// An input of a stage: the output of another.
#[derive(Debug, Clone, Copy, PartialEq, Eq, Structural)]
pub struct StageInput {
    pub stage: usize,
    pub mode: InputMode,
}

/// What an operator is, as far as stages depend on it.
#[derive(Debug, Clone, Copy, PartialEq, Eq, Structural)]
pub enum PlanKind {
    GlobalLimit { skip: usize, fetch: Option<usize> },
    CoalescePartitions { fetch: Option<usize> },
    Repartition { partitioning: PlanPartitioning, preserve_order: bool },
    SortPreservingMerge,
    HashJoin { mode: PartitionMode, join_type: JoinType },
    /// A nested loop join, a cross join or a piecewise merge join.
    LoopJoin,
    /// The exchange of a stream by key.
    StreamExchange { partitioning: PlanPartitioning },
    /// The funnel of a stream into one partition.
    StreamBarrierAlign,
    RecursiveQuery,
    /// An operator that runs in the driver.
    DriverOnly,
    /// The output of a stage. Its partitioning is that of the operator of origin, unless it is
    /// replaced.
    StageOutput { input: StageInput, replaced: Option<PlanPartitioning> },
    /// The input of a stage with a number.
    StageInputIndex { index: usize, replaced: Option<PlanPartitioning> },
    Other,
}

/// A physical plan. `origin` tells the operator that a node stands for, or whose properties it has;
/// there is none where the node was added.
#[derive(Debug)]
pub struct Plan {
    pub origin: Option<u64>,
    pub kind: PlanKind,
    pub partitions: usize,
    pub children: Vec<Plan>,
}

/// A physical plan.
#[verifier::ext_equal]
pub struct PlanModel {
    pub origin: Option<u64>,
    pub kind: PlanKind,
    pub partitions: usize,
    pub children: Seq<PlanModel>,
}

/// The model of a plan.
pub open spec fn plan_model(p: Plan) -> PlanModel
    decreases p,
{
    PlanModel {
        origin: p.origin,
        kind: p.kind,
        partitions: p.partitions,
        children: Seq::new(
            p.children@.len(),
            |i: int|
                if 0 <= i < p.children@.len() {
                    plan_model(p.children@[i])
                } else {
                    arbitrary()
                },
        ),
    }
}

/// The models of plans.
pub open spec fn plan_models(ps: Seq<Plan>) -> Seq<PlanModel> {
    Seq::new(ps.len(), |i: int| plan_model(ps[i]))
}

impl View for Plan {
    type V = PlanModel;

    open spec fn view(&self) -> PlanModel {
        plan_model(*self)
    }
}

proof fn lemma_children(p: Plan)
    ensures
        plan_model(p).children == plan_models(p.children@),
{
    assert(plan_model(p).children =~= plan_models(p.children@));
}

proof fn lemma_push_plan(ps: Seq<Plan>, p: Plan)
    ensures
        plan_models(ps.push(p)) == plan_models(ps).push(plan_model(p)),
{
    assert(plan_models(ps.push(p)) =~= plan_models(ps).push(plan_model(p)));
}

impl Plan {
    /// A copy.
    pub fn copy(&self) -> (plan: Plan)
        ensures
            plan@ == self@,
        decreases self,
    {
        let mut children: Vec<Plan> = Vec::new();
        let mut i: usize = 0;
        proof {
            lemma_children(*self);
            assert(plan_models(children@) =~= self@.children.take(0));
        }
        while i < self.children.len()
            invariant
                i <= self.children@.len(),
                self@.children == plan_models(self.children@),
                plan_models(children@) == self@.children.take(i as int),
            decreases self.children@.len() - i,
        {
            let child = self.children[i].copy();
            proof {
                lemma_push_plan(children@, child);
                assert(self@.children.take(i + 1) =~= self@.children.take(i as int).push(
                    self@.children[i as int],
                ));
            }
            children.push(child);
            i = i + 1;
        }
        let plan = Plan {
            origin: self.origin,
            kind: self.kind,
            partitions: self.partitions,
            children,
        };
        proof {
            lemma_children(plan);
            assert(self@.children.take(i as int) =~= self@.children);
        }
        plan
    }
}

/// A plan that gathers the partitions of another.
pub open spec fn coalesced(p: PlanModel) -> PlanModel {
    PlanModel {
        origin: None,
        kind: PlanKind::CoalescePartitions { fetch: None },
        partitions: 1,
        children: seq![p],
    }
}

fn coalesce(plan: Plan) -> (out: Plan)
    ensures
        out@ == coalesced(plan@),
{
    let mut children: Vec<Plan> = Vec::new();
    proof {
        lemma_push_plan(children@, plan);
    }
    children.push(plan);
    let out = Plan {
        origin: None,
        kind: PlanKind::CoalescePartitions { fetch: None },
        partitions: 1,
        children,
    };
    proof {
        lemma_children(out);
        assert(out@.children =~= seq![plan@]);
    }
    out
}

/// A limit over one partition, where it was over several.
pub open spec fn limited_node(p: PlanModel) -> PlanModel {
    match p.kind {
        PlanKind::GlobalLimit { skip, fetch } => if (fetch is Some || skip > 0) && p.children.len()
            == 1 && p.children[0].partitions > 1 {
            PlanModel { children: seq![coalesced(p.children[0])], ..p }
        } else {
            p
        },
        _ => p,
    }
}

/// The plan with every limit over one partition.
pub open spec fn limited(p: PlanModel) -> PlanModel
    decreases p, 1nat,
{
    limited_node(PlanModel { children: limited_children(p), ..p })
}

/// The children of a plan with every limit over one partition.
pub open spec fn limited_children(p: PlanModel) -> Seq<PlanModel>
    decreases p, 0nat,
{
    Seq::new(
        p.children.len(),
        |i: int|
            if 0 <= i < p.children.len() {
                limited(p.children[i])
            } else {
                arbitrary()
            },
    )
}

/// Makes every limit in a plan one over one partition: each partition by itself cannot tell how
/// many rows the others have.
pub fn ensure_single_input_partition_for_global_limit(plan: &Plan) -> (out: Plan)
    ensures
        out@ == limited(plan@),
    decreases plan,
{
    let ghost expected = limited_children(plan@);
    let mut children: Vec<Plan> = Vec::new();
    let mut i: usize = 0;
    proof {
        lemma_children(*plan);
        assert(plan_models(children@) =~= expected.take(0));
    }
    while i < plan.children.len()
        invariant
            i <= plan.children@.len(),
            plan@.children == plan_models(plan.children@),
            expected.len() == plan@.children.len(),
            forall|k: int| 0 <= k < expected.len() ==> #[trigger] expected[k] == limited(
                plan@.children[k],
            ),
            plan_models(children@) == expected.take(i as int),
        decreases plan.children@.len() - i,
    {
        let child = ensure_single_input_partition_for_global_limit(&plan.children[i]);
        proof {
            lemma_push_plan(children@, child);
            assert(expected.take(i + 1) =~= expected.take(i as int).push(expected[i as int]));
        }
        children.push(child);
        i = i + 1;
    }
    assert(expected.take(i as int) =~= expected);
    assert(plan_models(children@).len() == children@.len());
    let several = children.len() == 1 && children[0].partitions > 1;
    let cut = match plan.kind {
        PlanKind::GlobalLimit { skip, fetch } => (fetch.is_some() || skip > 0) && several,
        _ => false,
    };
    assert(several == (expected.len() == 1 && expected[0].partitions > 1)) by {
        if children@.len() == 1 {
            assert(plan_models(children@)[0] == children@[0]@);
        }
    }
    if cut {
        assert(plan_models(children@)[0] == children@[0]@);
        let child = children.remove(0);
        let inner = coalesce(child);
        children.push(inner);
        assert(plan_models(children@) =~= seq![inner@]);
    }
    let out = Plan { origin: plan.origin, kind: plan.kind, partitions: plan.partitions, children };
    proof {
        lemma_children(out);
    }
    out
}

/// Whether a join gives rows of its left side that no row of the right side matches, or needs to
/// know all matches of a left row.
pub open spec fn emits_unmatched(join_type: JoinType) -> bool {
    match join_type {
        JoinType::Left | JoinType::LeftAnti | JoinType::LeftSemi | JoinType::LeftMark
        | JoinType::Full => true,
        _ => false,
    }
}

/// A plan whose rows are spread anew by hash, in place of an earlier spreading or gathering.
pub open spec fn repartitioned(p: PlanModel, keys: HashKeys, count: usize) -> PlanModel {
    let spread = p.kind is CoalescePartitions || p.kind is Repartition;
    let input = if spread && p.children.len() == 1 {
        p.children[0]
    } else {
        p
    };
    PlanModel {
        origin: None,
        kind: PlanKind::Repartition {
            partitioning: PlanPartitioning::Hash { keys, partitions: count },
            preserve_order: false,
        },
        partitions: count,
        children: seq![input],
    }
}

fn repartition(plan: Plan, keys: HashKeys, count: usize) -> (out: Plan)
    ensures
        out@ == repartitioned(plan@, keys, count),
{
    proof {
        lemma_children(plan);
        assert(plan_models(plan.children@).len() == plan.children@.len());
    }
    let spread = match plan.kind {
        PlanKind::CoalescePartitions { .. } => true,
        PlanKind::Repartition { .. } => true,
        _ => false,
    };
    let input = if spread && plan.children.len() == 1 {
        assert(plan_models(plan.children@)[0] == plan.children@[0]@);
        let mut inner = plan.children;
        inner.remove(0)
    } else {
        plan
    };
    let ghost view = input@;
    let mut children: Vec<Plan> = Vec::new();
    proof {
        lemma_push_plan(children@, input);
    }
    children.push(input);
    let out = Plan {
        origin: None,
        kind: PlanKind::Repartition {
            partitioning: PlanPartitioning::Hash { keys, partitions: count },
            preserve_order: false,
        },
        partitions: count,
        children,
    };
    proof {
        lemma_children(out);
        assert(out@.children =~= seq![view]);
    }
    out
}

/// A join by partition, where it gathered a left side whose unmatched rows count.
pub open spec fn joined_node(p: PlanModel) -> PlanModel {
    match p.kind {
        PlanKind::HashJoin { mode, join_type } => if mode == PartitionMode::CollectLeft
            && emits_unmatched(join_type) && p.children.len() == 2 {
            let count = p.children[1].partitions;
            PlanModel {
                kind: PlanKind::HashJoin { mode: PartitionMode::Partitioned, join_type },
                children: seq![
                    repartitioned(p.children[0], HashKeys::JoinLeft(p.origin), count),
                    repartitioned(p.children[1], HashKeys::JoinRight(p.origin), count),
                ],
                ..p
            }
        } else {
            p
        },
        _ => p,
    }
}

/// The plan with every join by partition, where its left side's unmatched rows count.
pub open spec fn joined(p: PlanModel) -> PlanModel
    decreases p, 1nat,
{
    joined_node(PlanModel { children: joined_children(p), ..p })
}

/// The children of a plan with every join by partition, where its left side's unmatched rows count.
pub open spec fn joined_children(p: PlanModel) -> Seq<PlanModel>
    decreases p, 0nat,
{
    Seq::new(
        p.children.len(),
        |i: int|
            if 0 <= i < p.children.len() {
                joined(p.children[i])
            } else {
                arbitrary()
            },
    )
}

/// Makes every join that gathers its left side, and whose unmatched left rows count, one by
/// partition: which rows matched is not known across partitions.
pub fn ensure_partitioned_hash_join_if_build_side_emits_unmatched_rows(plan: &Plan) -> (out: Plan)
    ensures
        out@ == joined(plan@),
    decreases plan,
{
    let ghost expected = joined_children(plan@);
    let mut children: Vec<Plan> = Vec::new();
    let mut i: usize = 0;
    proof {
        lemma_children(*plan);
        assert(plan_models(children@) =~= expected.take(0));
    }
    while i < plan.children.len()
        invariant
            i <= plan.children@.len(),
            plan@.children == plan_models(plan.children@),
            expected.len() == plan@.children.len(),
            forall|k: int| 0 <= k < expected.len() ==> #[trigger] expected[k] == joined(
                plan@.children[k],
            ),
            plan_models(children@) == expected.take(i as int),
        decreases plan.children@.len() - i,
    {
        let child = ensure_partitioned_hash_join_if_build_side_emits_unmatched_rows(
            &plan.children[i],
        );
        proof {
            lemma_push_plan(children@, child);
            assert(expected.take(i + 1) =~= expected.take(i as int).push(expected[i as int]));
        }
        children.push(child);
        i = i + 1;
    }
    assert(expected.take(i as int) =~= expected);
    assert(plan_models(children@).len() == children@.len());
    let mut kind = plan.kind;
    match plan.kind {
        PlanKind::HashJoin { mode, join_type } => {
            let unmatched = match join_type {
                JoinType::Left => true,
                JoinType::LeftAnti => true,
                JoinType::LeftSemi => true,
                JoinType::LeftMark => true,
                JoinType::Full => true,
                _ => false,
            };
            if mode == PartitionMode::CollectLeft && unmatched && children.len() == 2 {
                proof {
                    assert(plan_models(children@)[0] == children@[0]@);
                    assert(plan_models(children@)[1] == children@[1]@);
                }
                let count = children[1].partitions;
                let left = repartition(
                    children.remove(0),
                    HashKeys::JoinLeft(plan.origin),
                    count,
                );
                let right = repartition(
                    children.remove(0),
                    HashKeys::JoinRight(plan.origin),
                    count,
                );
                children.push(left);
                children.push(right);
                kind = PlanKind::HashJoin { mode: PartitionMode::Partitioned, join_type };
                assert(plan_models(children@) =~= seq![left@, right@]);
            }
        },
        _ => {},
    }
    let out = Plan { origin: plan.origin, kind, partitions: plan.partitions, children };
    proof {
        lemma_children(out);
    }
    out
}

/// When a stage's output can be read.
#[derive(Debug, Clone, Copy, PartialEq, Eq, Structural)]
pub enum OutputMode {
    /// While it is written.
    Pipelined,
    /// When it is complete.
    Blocking,
}

/// How the rows of a stage are spread over the channels of its output.
#[derive(Debug, Clone, Copy, PartialEq, Eq, Structural)]
pub enum OutputDistribution {
    RoundRobin { channels: usize },
    Hash { keys: HashKeys, channels: usize },
}

/// A part of a plan that runs by itself.
#[derive(Debug)]
pub struct Stage {
    pub inputs: Vec<StageInput>,
    pub plan: Plan,
    pub group: String,
    pub mode: OutputMode,
    pub distribution: OutputDistribution,
    pub placement: TaskPlacement,
}

/// A part of a plan that runs by itself.
#[verifier::ext_equal]
pub struct StageModel {
    pub inputs: Seq<StageInput>,
    pub plan: PlanModel,
    pub group: Seq<char>,
    pub mode: OutputMode,
    pub distribution: OutputDistribution,
    pub placement: TaskPlacement,
}

impl View for Stage {
    type V = StageModel;

    open spec fn view(&self) -> StageModel {
        StageModel {
            inputs: self.inputs@,
            plan: self.plan@,
            group: self.group@,
            mode: self.mode,
            distribution: self.distribution,
            placement: self.placement,
        }
    }
}

/// The models of stages.
pub open spec fn stage_models(stages: Seq<Stage>) -> Seq<StageModel> {
    stages.map_values(|s: Stage| s@)
}

/// Why a plan cannot be cut into stages.
#[derive(Debug, Clone, Copy, PartialEq, Eq, Structural)]
pub enum JobGraphError {
    /// A hash join whose mode is not decided.
    AutoPartitionMode,
    /// A spreading of rows that keeps their order.
    OrderPreservingRepartition,
    /// An operator with another number of inputs than it has to have.
    InputCount { expected: usize, actual: usize },
}

impl JobGraphError {
    /// The message for the user.
    pub open spec fn text(self) -> Seq<char> {
        match self {
            JobGraphError::AutoPartitionMode => "unresolved auto partition mode in hash join"@,
            JobGraphError::OrderPreservingRepartition =>
                "repartition is order-preserving and would result in incorrect results in distributed execution"@,
            JobGraphError::InputCount { expected, actual } => "expected "@ + decimal(
                expected as nat,
            ) + " inputs but found "@ + decimal(actual as nat),
        }
    }

    /// The message for the user.
    pub fn message(&self) -> (out: String)
        ensures
            out@ == self.text(),
    {
        match self {
            JobGraphError::AutoPartitionMode => {
                "unresolved auto partition mode in hash join".to_owned()
            },
            JobGraphError::OrderPreservingRepartition => {
                "repartition is order-preserving and would result in incorrect results in distributed execution".to_owned()
            },
            JobGraphError::InputCount { expected, actual } => {
                let mut out = "expected ".to_owned();
                text::push_decimal(&mut out, *expected as u64);
                out.append(" inputs but found ");
                text::push_decimal(&mut out, *actual as u64);
                out
            },
        }
    }
}

/// How often a partition of a plan is read.
#[derive(Debug, Clone, Copy, PartialEq, Eq, Structural)]
pub enum PartitionUsage {
    /// Once.
    Once,
    /// Once for each of several partitions of the reader, as the side of a join that is gathered.
    Shared,
}

/// Whether an operator of a stream is cut into stages.
pub open spec fn is_stream_boundary(kind: PlanKind, distributed_stream: bool) -> bool {
    distributed_stream && (kind is StreamExchange || kind is StreamBarrierAlign)
}

fn distributed_stream_boundary(kind: PlanKind, distributed_stream: bool) -> (boundary: bool)
    ensures
        boundary == is_stream_boundary(kind, distributed_stream),
{
    distributed_stream && match kind {
        PlanKind::StreamExchange { .. } => true,
        PlanKind::StreamBarrierAlign => true,
        _ => false,
    }
}

/// Whether the stages are cut below an operator.
pub open spec fn is_boundary(kind: PlanKind, distributed_stream: bool) -> bool {
    kind is Repartition || kind is CoalescePartitions || kind is SortPreservingMerge
        || is_stream_boundary(kind, distributed_stream)
}

fn boundary(kind: PlanKind, distributed_stream: bool) -> (yes: bool)
    ensures
        yes == is_boundary(kind, distributed_stream),
{
    match kind {
        PlanKind::Repartition { .. } => true,
        PlanKind::CoalescePartitions { .. } => true,
        PlanKind::SortPreservingMerge => true,
        _ => distributed_stream_boundary(kind, distributed_stream),
    }
}

/// What is wrong with an operator before its inputs are looked at.
pub open spec fn inputs_error(kind: PlanKind, inputs: nat, distributed_stream: bool) -> Option<
    JobGraphError,
> {
    if kind is HashJoin || kind is LoopJoin {
        if inputs != 2 {
            Some(JobGraphError::InputCount { expected: 2, actual: inputs as usize })
        } else if kind matches PlanKind::HashJoin { mode, .. } && mode == PartitionMode::Auto {
            Some(JobGraphError::AutoPartitionMode)
        } else {
            None
        }
    } else if is_boundary(kind, distributed_stream) && inputs != 1 {
        Some(JobGraphError::InputCount { expected: 1, actual: inputs as usize })
    } else {
        None
    }
}

fn check_inputs(kind: PlanKind, inputs: usize, distributed_stream: bool) -> (result: Result<
    (),
    JobGraphError,
>)
    ensures
        match result {
            Ok(_) => inputs_error(kind, inputs as nat, distributed_stream) is None,
            Err(e) => inputs_error(kind, inputs as nat, distributed_stream) == Some(e),
        },
{
    match kind {
        PlanKind::HashJoin { mode, .. } => {
            if inputs != 2 {
                return Err(JobGraphError::InputCount { expected: 2, actual: inputs });
            }
            if mode == PartitionMode::Auto {
                return Err(JobGraphError::AutoPartitionMode);
            }
        },
        PlanKind::LoopJoin => {
            if inputs != 2 {
                return Err(JobGraphError::InputCount { expected: 2, actual: inputs });
            }
        },
        _ => {
            if boundary(kind, distributed_stream) && inputs != 1 {
                return Err(JobGraphError::InputCount { expected: 1, actual: inputs });
            }
        },
    }
    Ok(())
}

/// How often the partitions of an operator's input are read. Below a boundary it is once: what is
/// read more often is kept by the boundary.
pub open spec fn input_usage(
    kind: PlanKind,
    input: nat,
    usage: PartitionUsage,
    distributed_stream: bool,
) -> PartitionUsage {
    if is_boundary(kind, distributed_stream) {
        PartitionUsage::Once
    } else if input == 0 && (kind is LoopJoin || (kind matches PlanKind::HashJoin { mode, .. }
        && mode == PartitionMode::CollectLeft)) {
        PartitionUsage::Shared
    } else {
        usage
    }
}

fn usage_of_input(kind: PlanKind, input: usize, usage: PartitionUsage, distributed_stream: bool) -> (out:
    PartitionUsage)
    ensures
        out == input_usage(kind, input as nat, usage, distributed_stream),
{
    if boundary(kind, distributed_stream) {
        return PartitionUsage::Once;
    }
    let gathered = match kind {
        PlanKind::LoopJoin => true,
        PlanKind::HashJoin { mode, .. } => mode == PartitionMode::CollectLeft,
        _ => false,
    };
    if input == 0 && gathered {
        PartitionUsage::Shared
    } else {
        usage
    }
}

/// A plan in which each output of another stage became an input with a number, from `n` on, and
/// those inputs.
#[verifier::ext_equal]
pub struct Rewritten {
    pub plan: PlanModel,
    pub inputs: Seq<StageInput>,
}

/// The plan with numbered inputs.
pub open spec fn rewritten(p: PlanModel, n: nat) -> Rewritten
    decreases p, p.children.len() + 1,
{
    match p.kind {
        PlanKind::StageOutput { input, replaced } => Rewritten {
            plan: PlanModel {
                kind: PlanKind::StageInputIndex { index: n as usize, replaced },
                children: Seq::empty(),
                ..p
            },
            inputs: seq![input],
        },
        _ => {
            let (children, inputs) = rewritten_children(p, p.children.len(), n);
            Rewritten { plan: PlanModel { children, ..p }, inputs }
        },
    }
}

/// The first `k` children of a plan with numbered inputs.
pub open spec fn rewritten_children(p: PlanModel, k: nat, n: nat) -> (
    Seq<PlanModel>,
    Seq<StageInput>,
)
    decreases p, k,
{
    if 0 < k <= p.children.len() {
        let (children, inputs) = rewritten_children(p, (k - 1) as nat, n);
        let child = rewritten(p.children[k - 1], n + inputs.len());
        (children.push(child.plan), inputs + child.inputs)
    } else {
        (Seq::empty(), Seq::empty())
    }
}

fn number_inputs(plan: &Plan, inputs: &mut Vec<StageInput>) -> (out: Plan)
    ensures
        ({
            let r = rewritten(plan@, old(inputs)@.len());
            out@ == r.plan && final(inputs)@ == old(inputs)@ + r.inputs
        }),
    decreases plan,
{
    let ghost start = inputs@;
    match plan.kind {
        PlanKind::StageOutput { input, replaced } => {
            let index: usize = inputs.len();
            inputs.push(input);
            let out = Plan {
                origin: plan.origin,
                kind: PlanKind::StageInputIndex { index, replaced },
                partitions: plan.partitions,
                children: Vec::new(),
            };
            proof {
                lemma_children(out);
                assert(out@.children =~= Seq::<PlanModel>::empty());
                assert(inputs@ =~= start + seq![input]);
            }
            return out;
        },
        _ => {},
    }
    let mut children: Vec<Plan> = Vec::new();
    let mut i: usize = 0;
    proof {
        lemma_children(*plan);
        assert(plan_models(children@) =~= Seq::<PlanModel>::empty());
        assert(start + Seq::<StageInput>::empty() =~= start);
    }
    while i < plan.children.len()
        invariant
            i <= plan.children@.len(),
            plan@.children == plan_models(plan.children@),
            plan_models(children@) == rewritten_children(plan@, i as nat, start.len()).0,
            inputs@ == start + rewritten_children(plan@, i as nat, start.len()).1,
        decreases plan.children@.len() - i,
    {
        let ghost before = inputs@;
        let child = number_inputs(&plan.children[i], inputs);
        proof {
            lemma_push_plan(children@, child);
            let (_, known) = rewritten_children(plan@, i as nat, start.len());
            let r = rewritten(plan@.children[i as int], start.len() + known.len());
            assert(plan@.children[i as int] == plan.children@[i as int]@);
            assert((start + known) + r.inputs =~= start + (known + r.inputs));
            assert(rewritten_children(plan@, (i + 1) as nat, start.len()).1 == known + r.inputs);
        }
        children.push(child);
        i = i + 1;
    }
    let out = Plan { origin: plan.origin, kind: plan.kind, partitions: plan.partitions, children };
    proof {
        lemma_children(out);
    }
    out
}

/// A stage with the given plan, whose inputs are the outputs of other stages in it.
pub open spec fn new_stage(
    p: PlanModel,
    distribution: OutputDistribution,
    placement: TaskPlacement,
) -> StageModel {
    let r = rewritten(p, 0);
    StageModel {
        inputs: r.inputs,
        plan: r.plan,
        group: ""@,
        mode: OutputMode::Pipelined,
        distribution,
        placement,
    }
}

fn push_stage(stages: &mut Vec<Stage>, plan: &Plan, distribution: OutputDistribution)
    ensures
        stage_models(final(stages)@) == stage_models(old(stages)@).push(
            new_stage(plan@, distribution, TaskPlacement::Worker),
        ),
        final(stages)@.len() == old(stages)@.len() + 1,
{
    let mut inputs: Vec<StageInput> = Vec::new();
    let ghost none = inputs@;
    let rewritten_plan = number_inputs(plan, &mut inputs);
    proof {
        assert(none + rewritten(plan@, 0).inputs =~= rewritten(plan@, 0).inputs);
    }
    let stage = Stage {
        inputs,
        plan: rewritten_plan,
        group: "".to_owned(),
        mode: OutputMode::Pipelined,
        distribution,
        placement: TaskPlacement::Worker,
    };
    let ghost view = stage@;
    stages.push(stage);
    proof {
        assert(view =~= new_stage(plan@, distribution, TaskPlacement::Worker));
        assert(stage_models(stages@) =~= stage_models(old(stages)@).push(view));
    }
}

/// The distribution of a partitioning.
pub open spec fn distribution_of(partitioning: PlanPartitioning) -> OutputDistribution {
    match partitioning {
        PlanPartitioning::RoundRobinBatch(channels) => OutputDistribution::RoundRobin { channels },
        PlanPartitioning::UnknownPartitioning(channels) => OutputDistribution::RoundRobin { channels },
        PlanPartitioning::Hash { keys, partitions } => OutputDistribution::Hash {
            keys,
            channels: partitions,
        },
    }
}

/// How the output of a shuffle is read.
pub open spec fn shuffle_mode(usage: PartitionUsage) -> InputMode {
    match usage {
        PartitionUsage::Once => InputMode::Shuffle,
        PartitionUsage::Shared => InputMode::Broadcast,
    }
}

/// What stands for the output of a stage.
pub open spec fn stage_output(
    origin: Option<u64>,
    stage: nat,
    mode: InputMode,
    replaced: Option<PlanPartitioning>,
    partitions: usize,
) -> PlanModel {
    PlanModel {
        origin,
        kind: PlanKind::StageOutput { input: StageInput { stage: stage as usize, mode }, replaced },
        partitions,
        children: Seq::empty(),
    }
}

fn output_of_stage(
    origin: Option<u64>,
    stage: usize,
    mode: InputMode,
    replaced: Option<PlanPartitioning>,
    partitions: usize,
) -> (out: Plan)
    ensures
        out@ == stage_output(origin, stage as nat, mode, replaced, partitions),
{
    let out = Plan {
        origin,
        kind: PlanKind::StageOutput { input: StageInput { stage, mode }, replaced },
        partitions,
        children: Vec::new(),
    };
    proof {
        lemma_children(out);
        assert(out@.children =~= Seq::<PlanModel>::empty());
    }
    out
}

/// A plan, and the stages that were cut off below it.
#[verifier::ext_equal]
pub struct Built {
    pub plan: PlanModel,
    pub stages: Seq<StageModel>,
}

/// The output of a stage that holds a plan, spread by a partitioning, in place of the operator
/// `origin`.
pub open spec fn shuffled(
    child: PlanModel,
    origin: Option<u64>,
    partitioning: PlanPartitioning,
    usage: PartitionUsage,
    stages: Seq<StageModel>,
) -> Built {
    Built {
        plan: stage_output(
            origin,
            stages.len(),
            shuffle_mode(usage),
            Some(partitioning),
            partitioning.count(),
        ),
        stages: stages.push(
            new_stage(child, distribution_of(partitioning), TaskPlacement::Worker),
        ),
    }
}

fn create_shuffle(
    plan: &Plan,
    origin: Option<u64>,
    partitioning: PlanPartitioning,
    usage: PartitionUsage,
    stages: &mut Vec<Stage>,
) -> (out: Plan)
    ensures
        ({
            let b = shuffled(plan@, origin, partitioning, usage, stage_models(old(stages)@));
            out@ == b.plan && stage_models(final(stages)@) == b.stages
        }),
{
    let distribution = match partitioning {
        PlanPartitioning::RoundRobinBatch(channels) => OutputDistribution::RoundRobin { channels },
        PlanPartitioning::UnknownPartitioning(channels) => OutputDistribution::RoundRobin { channels },
        PlanPartitioning::Hash { keys, partitions } => OutputDistribution::Hash {
            keys,
            channels: partitions,
        },
    };
    let stage: usize = stages.len();
    push_stage(stages, plan, distribution);
    let mode = match usage {
        PartitionUsage::Once => InputMode::Shuffle,
        PartitionUsage::Shared => InputMode::Broadcast,
    };
    output_of_stage(origin, stage, mode, Some(partitioning), partitioning.partition_count())
}

/// The partitioning of a spreading: one that is not known goes round.
pub open spec fn shuffle_partitioning(partitioning: PlanPartitioning) -> PlanPartitioning {
    match partitioning {
        PlanPartitioning::UnknownPartitioning(n) => PlanPartitioning::RoundRobinBatch(n),
        other => other,
    }
}

/// An operator whose inputs are built, cut off from them where it is a boundary.
pub open spec fn cut(
    p: PlanModel,
    usage: PartitionUsage,
    stages: Seq<StageModel>,
    distributed_stream: bool,
) -> Result<Built, JobGraphError> {
    match p.kind {
        PlanKind::Repartition { partitioning, preserve_order } => if preserve_order {
            Err(JobGraphError::OrderPreservingRepartition)
        } else {
            Ok(
                shuffled(
                    p.children[0],
                    p.origin,
                    shuffle_partitioning(partitioning),
                    usage,
                    stages,
                ),
            )
        },
        PlanKind::CoalescePartitions { fetch } => {
            let b = shuffled(
                p.children[0],
                p.origin,
                PlanPartitioning::UnknownPartitioning(1),
                usage,
                stages,
            );
            match fetch {
                Some(_) => Ok(
                    Built {
                        plan: PlanModel {
                            origin: None,
                            kind: PlanKind::GlobalLimit { skip: 0, fetch },
                            partitions: 1,
                            children: seq![b.plan],
                        },
                        ..b
                    },
                ),
                None => Ok(b),
            }
        },
        PlanKind::SortPreservingMerge => {
            let child = p.children[0];
            Ok(
                Built {
                    plan: PlanModel {
                        children: seq![
                            stage_output(
                                child.origin,
                                stages.len(),
                                InputMode::Merge,
                                None,
                                child.partitions,
                            ),
                        ],
                        ..p
                    },
                    stages: stages.push(
                        new_stage(
                            child,
                            OutputDistribution::RoundRobin { channels: 1 },
                            TaskPlacement::Worker,
                        ),
                    ),
                },
            )
        },
        PlanKind::StreamExchange { partitioning } if distributed_stream => Ok(
            shuffled(p.children[0], p.origin, partitioning, usage, stages),
        ),
        PlanKind::StreamBarrierAlign if distributed_stream => Ok(
            shuffled(
                p.children[0],
                p.origin,
                PlanPartitioning::UnknownPartitioning(1),
                usage,
                stages,
            ),
        ),
        PlanKind::DriverOnly => if p.children.len() != 0 {
            Err(
                JobGraphError::InputCount { expected: 0, actual: p.children.len() as usize },
            )
        } else {
            Ok(
                Built {
                    plan: stage_output(
                        p.origin,
                        stages.len(),
                        InputMode::Forward,
                        None,
                        p.partitions,
                    ),
                    stages: stages.push(
                        StageModel {
                            inputs: Seq::empty(),
                            plan: p,
                            group: ""@,
                            mode: OutputMode::Pipelined,
                            distribution: OutputDistribution::RoundRobin { channels: 1 },
                            placement: TaskPlacement::Driver,
                        },
                    ),
                },
            )
        },
        _ => Ok(Built { plan: p, stages }),
    }
}

/// A plan cut into stages: what is left of it, and the stages below it after those that there were.
pub open spec fn built(
    p: PlanModel,
    usage: PartitionUsage,
    stages: Seq<StageModel>,
    distributed_stream: bool,
) -> Result<Built, JobGraphError>
    decreases p, p.children.len() + 1,
{
    match inputs_error(p.kind, p.children.len(), distributed_stream) {
        Some(e) => Err(e),
        None => if p.kind is RecursiveQuery {
            Ok(Built { plan: p, stages })
        } else {
            match built_children(p, p.children.len(), usage, stages, distributed_stream) {
                Ok((children, cut_off)) => cut(
                    PlanModel { children, ..p },
                    usage,
                    cut_off,
                    distributed_stream,
                ),
                Err(e) => Err(e),
            }
        },
    }
}

/// The first `k` children of a plan cut into stages.
pub open spec fn built_children(
    p: PlanModel,
    k: nat,
    usage: PartitionUsage,
    stages: Seq<StageModel>,
    distributed_stream: bool,
) -> Result<(Seq<PlanModel>, Seq<StageModel>), JobGraphError>
    decreases p, k,
{
    if 0 < k <= p.children.len() {
        match built_children(p, (k - 1) as nat, usage, stages, distributed_stream) {
            Ok((children, known)) => match built(
                p.children[k - 1],
                input_usage(p.kind, (k - 1) as nat, usage, distributed_stream),
                known,
                distributed_stream,
            ) {
                Ok(b) => Ok((children.push(b.plan), b.stages)),
                Err(e) => Err(e),
            },
            Err(e) => Err(e),
        }
    } else {
        Ok((Seq::empty(), stages))
    }
}

proof fn lemma_first_error(
    p: PlanModel,
    k: nat,
    usage: PartitionUsage,
    stages: Seq<StageModel>,
    distributed_stream: bool,
)
    requires
        k <= p.children.len(),
        built_children(p, k, usage, stages, distributed_stream) is Err,
    ensures
        built_children(p, p.children.len(), usage, stages, distributed_stream) == built_children(
            p,
            k,
            usage,
            stages,
            distributed_stream,
        ),
    decreases p.children.len() - k,
{
    if k < p.children.len() {
        lemma_first_error(p, k + 1, usage, stages, distributed_stream);
    }
}

fn cut_plan(
    plan: Plan,
    usage: PartitionUsage,
    stages: &mut Vec<Stage>,
    distributed_stream: bool,
) -> (result: Result<Plan, JobGraphError>)
    requires
        inputs_error(plan.kind, plan.children@.len(), distributed_stream) is None,
    ensures
        match cut(plan@, usage, stage_models(old(stages)@), distributed_stream) {
            Ok(b) => result matches Ok(q) && q@ == b.plan && stage_models(final(stages)@)
                == b.stages,
            Err(e) => result == Err::<Plan, JobGraphError>(e),
        },
{
    proof {
        lemma_children(plan);
        assert(plan@.children.len() == plan.children@.len());
        if plan.children@.len() == 1 {
            assert(plan@.children[0] == plan.children@[0]@);
        }
    }
    let ghost known = stage_models(stages@);
    match plan.kind {
        PlanKind::Repartition { partitioning, preserve_order } => {
            if preserve_order {
                return Err(JobGraphError::OrderPreservingRepartition);
            }
            let spread = match partitioning {
                PlanPartitioning::UnknownPartitioning(n) => PlanPartitioning::RoundRobinBatch(n),
                other => other,
            };
            Ok(create_shuffle(&plan.children[0], plan.origin, spread, usage, stages))
        },
        PlanKind::CoalescePartitions { fetch } => {
            let out = create_shuffle(
                &plan.children[0],
                plan.origin,
                PlanPartitioning::UnknownPartitioning(1),
                usage,
                stages,
            );
            if fetch.is_none() {
                return Ok(out);
            }
            let ghost inner = out@;
            let mut children: Vec<Plan> = Vec::new();
            proof {
                lemma_push_plan(children@, out);
            }
            children.push(out);
            let limit = Plan {
                origin: None,
                kind: PlanKind::GlobalLimit { skip: 0, fetch },
                partitions: 1,
                children,
            };
            proof {
                lemma_children(limit);
                assert(limit@.children =~= seq![inner]);
            }
            Ok(limit)
        },
        PlanKind::SortPreservingMerge => {
            let stage: usize = stages.len();
            let child = &plan.children[0];
            push_stage(stages, child, OutputDistribution::RoundRobin { channels: 1 });
            let input = output_of_stage(
                child.origin,
                stage,
                InputMode::Merge,
                None,
                child.partitions,
            );
            let ghost inner = input@;
            let mut children: Vec<Plan> = Vec::new();
            proof {
                lemma_push_plan(children@, input);
            }
            children.push(input);
            let merge = Plan {
                origin: plan.origin,
                kind: plan.kind,
                partitions: plan.partitions,
                children,
            };
            proof {
                lemma_children(merge);
                assert(merge@.children =~= seq![inner]);
            }
            Ok(merge)
        },
        PlanKind::DriverOnly => {
            if plan.children.len() != 0 {
                return Err(
                    JobGraphError::InputCount { expected: 0, actual: plan.children.len() },
                );
            }
            let stage: usize = stages.len();
            let out = output_of_stage(
                plan.origin,
                stage,
                InputMode::Forward,
                None,
                plan.partitions,
            );
            let ghost view = plan@;
            let driver = Stage {
                inputs: Vec::new(),
                plan,
                group: "".to_owned(),
                mode: OutputMode::Pipelined,
                distribution: OutputDistribution::RoundRobin { channels: 1 },
                placement: TaskPlacement::Driver,
            };
            let ghost pushed = driver@;
            stages.push(driver);
            proof {
                assert(pushed.inputs =~= Seq::<StageInput>::empty());
                assert(stage_models(stages@) =~= known.push(pushed));
            }
            Ok(out)
        },
        PlanKind::StreamExchange { partitioning } => {
            if distributed_stream {
                Ok(create_shuffle(&plan.children[0], plan.origin, partitioning, usage, stages))
            } else {
                Ok(plan)
            }
        },
        PlanKind::StreamBarrierAlign => {
            if distributed_stream {
                Ok(
                    create_shuffle(
                        &plan.children[0],
                        plan.origin,
                        PlanPartitioning::UnknownPartitioning(1),
                        usage,
                        stages,
                    ),
                )
            } else {
                Ok(plan)
            }
        },
        _ => Ok(plan),
    }
}

/// Cuts a plan into stages, which are added to those that there are; what is left of the plan.
pub fn build_job_graph(
    plan: &Plan,
    usage: PartitionUsage,
    stages: &mut Vec<Stage>,
    distributed_stream: bool,
) -> (result: Result<Plan, JobGraphError>)
    ensures
        match built(plan@, usage, stage_models(old(stages)@), distributed_stream) {
            Ok(b) => result matches Ok(q) && q@ == b.plan && stage_models(final(stages)@)
                == b.stages,
            Err(e) => result == Err::<Plan, JobGraphError>(e),
        },
    decreases plan,
{
    let ghost known = stage_models(stages@);
    proof {
        lemma_children(*plan);
        assert(plan@.children.len() == plan.children@.len());
    }
    match check_inputs(plan.kind, plan.children.len(), distributed_stream) {
        Ok(_) => {},
        Err(e) => {
            return Err(e);
        },
    }
    let recursive = match plan.kind {
        PlanKind::RecursiveQuery => true,
        _ => false,
    };
    if recursive {
        return Ok(plan.copy());
    }
    let mut children: Vec<Plan> = Vec::new();
    let mut i: usize = 0;
    assert(plan_models(children@) =~= Seq::<PlanModel>::empty());
    while i < plan.children.len()
        invariant
            i <= plan.children@.len(),
            plan@.children == plan_models(plan.children@),
            !(plan@.kind is RecursiveQuery),
            inputs_error(plan@.kind, plan@.children.len(), distributed_stream) is None,
            known == stage_models(old(stages)@),
            built_children(plan@, i as nat, usage, known, distributed_stream) == Ok::<
                (Seq<PlanModel>, Seq<StageModel>),
                JobGraphError,
            >((plan_models(children@), stage_models(stages@))),
        decreases plan.children@.len() - i,
    {
        let part = usage_of_input(plan.kind, i, usage, distributed_stream);
        assert(plan@.children[i as int] == plan.children@[i as int]@);
        match build_job_graph(&plan.children[i], part, stages, distributed_stream) {
            Ok(child) => {
                proof {
                    lemma_push_plan(children@, child);
                }
                children.push(child);
            },
            Err(e) => {
                proof {
                    lemma_first_error(
                        plan@,
                        (i + 1) as nat,
                        usage,
                        known,
                        distributed_stream,
                    );
                }
                return Err(e);
            },
        }
        i = i + 1;
    }
    assert(plan_models(children@).len() == children@.len());
    let out = Plan { origin: plan.origin, kind: plan.kind, partitions: plan.partitions, children };
    proof {
        lemma_children(out);
        lemma_built_children_len(plan@, i as nat, usage, known, distributed_stream);
    }
    cut_plan(out, usage, stages, distributed_stream)
}

proof fn lemma_built_children_len(
    p: PlanModel,
    k: nat,
    usage: PartitionUsage,
    stages: Seq<StageModel>,
    distributed_stream: bool,
)
    requires
        k <= p.children.len(),
    ensures
        built_children(p, k, usage, stages, distributed_stream) matches Ok(r) ==> r.0.len() == k,
    decreases k,
{
    if k > 0 {
        lemma_built_children_len(p, (k - 1) as nat, usage, stages, distributed_stream);
    }
}

/// The stages of a plan, the last of which gives its rows.
#[derive(Debug)]
pub struct JobGraph {
    pub stages: Vec<Stage>,
    /// The node of the plan that has the schema of the rows.
    pub schema_origin: Option<u64>,
}

/// The stages of a plan.
pub open spec fn job_stages(p: PlanModel, distributed_stream: bool) -> Result<
    Seq<StageModel>,
    JobGraphError,
> {
    match built(joined(limited(p)), PartitionUsage::Once, Seq::empty(), distributed_stream) {
        Ok(b) => Ok(
            b.stages.push(
                new_stage(
                    b.plan,
                    OutputDistribution::RoundRobin { channels: 1 },
                    TaskPlacement::Worker,
                ),
            ),
        ),
        Err(e) => Err(e),
    }
}

impl JobGraph {
    /// The stages of a plan. `setting` says whether streams are cut into stages.
    pub fn try_new(plan: &Plan, setting: Option<&str>) -> (result: Result<JobGraph, JobGraphError>)
        ensures
            match job_stages(plan@, setting matches Some(g) && g@ == "1"@) {
                Ok(stages) => result matches Ok(graph) && stage_models(graph.stages@) == stages
                    && graph.schema_origin == plan.origin,
                Err(e) => result == Err::<JobGraph, JobGraphError>(e),
            },
    {
        let distributed_stream = match setting {
            Some(g) => text::str_eq(g, "1"),
            None => false,
        };
        Self::try_new_with_distributed_stream(plan, distributed_stream)
    }

    /// The stages of a plan, where it is said whether streams are cut into stages.
    pub fn try_new_with_distributed_stream(plan: &Plan, distributed_stream: bool) -> (result: Result<
        JobGraph,
        JobGraphError,
    >)
        ensures
            match job_stages(plan@, distributed_stream) {
                Ok(stages) => result matches Ok(graph) && stage_models(graph.stages@) == stages
                    && graph.schema_origin == plan.origin,
                Err(e) => result == Err::<JobGraph, JobGraphError>(e),
            },
    {
        let limits = ensure_single_input_partition_for_global_limit(plan);
        let joins = ensure_partitioned_hash_join_if_build_side_emits_unmatched_rows(&limits);
        let mut stages: Vec<Stage> = Vec::new();
        assert(stage_models(stages@) =~= Seq::<StageModel>::empty());
        match build_job_graph(&joins, PartitionUsage::Once, &mut stages, distributed_stream) {
            Ok(last) => {
                push_stage(&mut stages, &last, OutputDistribution::RoundRobin { channels: 1 });
                Ok(JobGraph { stages, schema_origin: plan.origin })
            },
            Err(e) => Err(e),
        }
    }
}

/// Whether each output of a stage in a plan is that of one of the first `n` stages.
pub open spec fn outputs_below(p: PlanModel, n: int) -> bool
    decreases p,
{
    &&& p.kind matches PlanKind::StageOutput { input, .. } ==> input.stage < n
    &&& forall|i: int| 0 <= i < p.children.len() ==> outputs_below(#[trigger] p.children[i], n)
}

/// Whether each stage reads earlier stages only, and no plan holds an output that is not one of its
/// stage's inputs.
pub open spec fn well_ordered(stages: Seq<StageModel>) -> bool {
    forall|s: int|
        0 <= s < stages.len() ==> {
            &&& outputs_below((#[trigger] stages[s]).plan, 0)
            &&& forall|i: int|
                0 <= i < stages[s].inputs.len() ==> (#[trigger] stages[s].inputs[i]).stage < s
        }
}

proof fn lemma_below_grows(p: PlanModel, m: int, n: int)
    requires
        outputs_below(p, m),
        m <= n,
    ensures
        outputs_below(p, n),
    decreases p,
{
    assert forall|i: int| 0 <= i < p.children.len() implies outputs_below(
        #[trigger] p.children[i],
        n,
    ) by {
        lemma_below_grows(p.children[i], m, n);
    }
}

proof fn lemma_rewritten(p: PlanModel, n: nat, below: int)
    requires
        outputs_below(p, below),
    ensures
        outputs_below(rewritten(p, n).plan, 0),
        forall|i: int|
            0 <= i < rewritten(p, n).inputs.len() ==> (#[trigger] rewritten(p, n).inputs[i]).stage
                < below,
    decreases p, p.children.len() + 1,
{
    if !(p.kind is StageOutput) {
        lemma_rewritten_children(p, p.children.len(), n, below);
        lemma_rewritten_len(p, p.children.len(), n);
    }
}

proof fn lemma_rewritten_len(p: PlanModel, k: nat, n: nat)
    requires
        k <= p.children.len(),
    ensures
        rewritten_children(p, k, n).0.len() == k,
    decreases k,
{
    if k > 0 {
        lemma_rewritten_len(p, (k - 1) as nat, n);
    }
}

proof fn lemma_rewritten_children(p: PlanModel, k: nat, n: nat, below: int)
    requires
        outputs_below(p, below),
        k <= p.children.len(),
    ensures
        forall|i: int|
            0 <= i < rewritten_children(p, k, n).0.len() ==> outputs_below(
                #[trigger] rewritten_children(p, k, n).0[i],
                0,
            ),
        forall|i: int|
            0 <= i < rewritten_children(p, k, n).1.len() ==> (#[trigger] rewritten_children(
                p,
                k,
                n,
            ).1[i]).stage < below,
    decreases p, k,
{
    if k > 0 {
        let m = (k - 1) as nat;
        lemma_rewritten_children(p, m, n, below);
        let (children, inputs) = rewritten_children(p, m, n);
        assert(outputs_below(p.children[k - 1], below));
        lemma_rewritten(p.children[k - 1], n + inputs.len(), below);
        let child = rewritten(p.children[k - 1], n + inputs.len());
        let (all, every) = rewritten_children(p, k, n);
        assert forall|i: int| 0 <= i < all.len() implies outputs_below(#[trigger] all[i], 0) by {
            if i < children.len() {
                assert(all[i] == children[i]);
            }
        }
        assert forall|i: int| 0 <= i < every.len() implies (#[trigger] every[i]).stage < below by {
            if i < inputs.len() {
                assert(every[i] == inputs[i]);
            } else {
                assert(every[i] == child.inputs[i - inputs.len()]);
            }
        }
    }
}

proof fn lemma_push_stage(
    stages: Seq<StageModel>,
    p: PlanModel,
    distribution: OutputDistribution,
    placement: TaskPlacement,
)
    requires
        well_ordered(stages),
        outputs_below(p, stages.len() as int),
    ensures
        well_ordered(stages.push(new_stage(p, distribution, placement))),
{
    lemma_rewritten(p, 0, stages.len() as int);
    let after = stages.push(new_stage(p, distribution, placement));
    assert forall|s: int| 0 <= s < after.len() implies {
        &&& outputs_below((#[trigger] after[s]).plan, 0)
        &&& forall|i: int|
            0 <= i < after[s].inputs.len() ==> (#[trigger] after[s].inputs[i]).stage < s
    } by {
        if s < stages.len() {
            assert(after[s] == stages[s]);
        }
    }
}

proof fn lemma_cut(
    p: PlanModel,
    usage: PartitionUsage,
    stages: Seq<StageModel>,
    distributed_stream: bool,
)
    requires
        well_ordered(stages),
        outputs_below(p, stages.len() as int),
        inputs_error(p.kind, p.children.len(), distributed_stream) is None,
        stages.len() < usize::MAX,
    ensures
        cut(p, usage, stages, distributed_stream) matches Ok(b) ==> {
            &&& well_ordered(b.stages)
            &&& stages.len() <= b.stages.len() <= stages.len() + 1
            &&& outputs_below(b.plan, b.stages.len() as int)
        },
{
    reveal_with_fuel(outputs_below, 3);
    let n = stages.len() as int;
    if is_boundary(p.kind, distributed_stream) {
        assert(outputs_below(p.children[0], n));
        let placement = TaskPlacement::Worker;
        match p.kind {
            PlanKind::Repartition { partitioning, .. } => {
                let d = distribution_of(shuffle_partitioning(partitioning));
                lemma_push_stage(stages, p.children[0], d, placement);
            },
            PlanKind::StreamExchange { partitioning } => {
                lemma_push_stage(stages, p.children[0], distribution_of(partitioning), placement);
            },
            _ => {
                let d = OutputDistribution::RoundRobin { channels: 1 };
                lemma_push_stage(stages, p.children[0], d, placement);
                assert(distribution_of(PlanPartitioning::UnknownPartitioning(1)) == d);
            },
        }
    } else if p.kind is DriverOnly && p.children.len() == 0 {
        let b = cut(p, usage, stages, distributed_stream)->Ok_0;
        assert(outputs_below(p, 0));
        assert forall|s: int| 0 <= s < b.stages.len() implies {
            &&& outputs_below((#[trigger] b.stages[s]).plan, 0)
            &&& forall|i: int|
                0 <= i < b.stages[s].inputs.len() ==> (#[trigger] b.stages[s].inputs[i]).stage < s
        } by {
            if s < stages.len() {
                assert(b.stages[s] == stages[s]);
            }
        }
    }
}

/// The number of stages that can be cut off within a plan: at most one for each operator.
pub open spec fn size(p: PlanModel) -> nat
    decreases p, p.children.len() + 1,
{
    1 + size_of_children(p, p.children.len())
}

/// The number of operators in the first `k` children of a plan.
pub open spec fn size_of_children(p: PlanModel, k: nat) -> nat
    decreases p, k,
{
    if 0 < k <= p.children.len() {
        size_of_children(p, (k - 1) as nat) + size(p.children[k - 1])
    } else {
        0
    }
}

proof fn lemma_built(
    p: PlanModel,
    usage: PartitionUsage,
    stages: Seq<StageModel>,
    distributed_stream: bool,
)
    requires
        well_ordered(stages),
        outputs_below(p, 0),
        stages.len() + size(p) <= usize::MAX,
    ensures
        built(p, usage, stages, distributed_stream) matches Ok(b) ==> {
            &&& well_ordered(b.stages)
            &&& stages.len() <= b.stages.len() <= stages.len() + size(p)
            &&& outputs_below(b.plan, b.stages.len() as int)
        },
    decreases p, p.children.len() + 1,
{
    lemma_below_grows(p, 0, stages.len() as int);
    if inputs_error(p.kind, p.children.len(), distributed_stream) is None && !(
    p.kind is RecursiveQuery) {
        lemma_built_children(p, p.children.len(), usage, stages, distributed_stream);
        lemma_built_children_len(p, p.children.len(), usage, stages, distributed_stream);
        if let Ok((children, known)) = built_children(
            p,
            p.children.len(),
            usage,
            stages,
            distributed_stream,
        ) {
            let q = PlanModel { children, ..p };
            assert(outputs_below(q, known.len() as int));
            lemma_cut(q, usage, known, distributed_stream);
        }
    }
}

proof fn lemma_built_children(
    p: PlanModel,
    k: nat,
    usage: PartitionUsage,
    stages: Seq<StageModel>,
    distributed_stream: bool,
)
    requires
        well_ordered(stages),
        outputs_below(p, 0),
        k <= p.children.len(),
        stages.len() + size_of_children(p, k) < usize::MAX,
    ensures
        built_children(p, k, usage, stages, distributed_stream) matches Ok(r) ==> {
            &&& well_ordered(r.1)
            &&& stages.len() <= r.1.len() <= stages.len() + size_of_children(p, k)
            &&& forall|i: int|
                0 <= i < r.0.len() ==> outputs_below(#[trigger] r.0[i], r.1.len() as int)
        },
    decreases p, k,
{
    if k > 0 {
        let m = (k - 1) as nat;
        lemma_built_children(p, m, usage, stages, distributed_stream);
        if let Ok((children, known)) = built_children(p, m, usage, stages, distributed_stream) {
            let part = input_usage(p.kind, m, usage, distributed_stream);
            assert(outputs_below(p.children[k - 1], 0));
            lemma_built(p.children[k - 1], part, known, distributed_stream);
            if let Ok(b) = built(p.children[k - 1], part, known, distributed_stream) {
                let all = children.push(b.plan);
                assert forall|i: int| 0 <= i < all.len() implies outputs_below(
                    #[trigger] all[i],
                    b.stages.len() as int,
                ) by {
                    if i < children.len() {
                        assert(all[i] == children[i]);
                        lemma_below_grows(
                            children[i],
                            known.len() as int,
                            b.stages.len() as int,
                        );
                    }
                }
            }
        }
    }
}

proof fn lemma_limited_below(p: PlanModel)
    requires
        outputs_below(p, 0),
    ensures
        outputs_below(limited(p), 0),
    decreases p,
{
    let children = limited_children(p);
    assert forall|i: int| 0 <= i < children.len() implies outputs_below(
        #[trigger] children[i],
        0,
    ) by {
        lemma_limited_below(p.children[i]);
    }
    let q = PlanModel { children, ..p };
    assert(outputs_below(q, 0));
    if children.len() == 1 {
        let c = coalesced(children[0]);
        assert(c.children[0] == children[0]);
        assert(outputs_below(c, 0));
    }
}

proof fn lemma_repartitioned_below(p: PlanModel, keys: HashKeys, count: usize)
    requires
        outputs_below(p, 0),
    ensures
        outputs_below(repartitioned(p, keys, count), 0),
{
    if p.children.len() == 1 {
        assert(outputs_below(p.children[0], 0));
    }
}

proof fn lemma_joined_below(p: PlanModel)
    requires
        outputs_below(p, 0),
    ensures
        outputs_below(joined(p), 0),
    decreases p,
{
    let children = joined_children(p);
    assert forall|i: int| 0 <= i < children.len() implies outputs_below(
        #[trigger] children[i],
        0,
    ) by {
        lemma_joined_below(p.children[i]);
    }
    let q = PlanModel { children, ..p };
    assert(outputs_below(q, 0));
    if children.len() == 2 {
        let count = children[1].partitions;
        assert(outputs_below(children[0], 0));
        assert(outputs_below(children[1], 0));
        lemma_repartitioned_below(children[0], HashKeys::JoinLeft(p.origin), count);
        lemma_repartitioned_below(children[1], HashKeys::JoinRight(p.origin), count);
    }
}

/// The stages of a plan can run in their order: each reads only the output of stages before it, and
/// every output that its plan reads is one of its inputs.
pub proof fn law_stages_read_earlier_stages(p: PlanModel, distributed_stream: bool)
    requires
        outputs_below(p, 0),
        size(joined(limited(p))) < usize::MAX,
    ensures
        job_stages(p, distributed_stream) matches Ok(stages) ==> well_ordered(stages)
            && stages.len() >= 1,
{
    lemma_limited_below(p);
    lemma_joined_below(limited(p));
    let q = joined(limited(p));
    lemma_built(q, PartitionUsage::Once, Seq::empty(), distributed_stream);
    if let Ok(b) = built(q, PartitionUsage::Once, Seq::empty(), distributed_stream) {
        lemma_push_stage(
            b.stages,
            b.plan,
            OutputDistribution::RoundRobin { channels: 1 },
            TaskPlacement::Worker,
        );
    }
}

/// Whether no operator of a plan is cut off, or refused.
pub open spec fn is_uncut(p: PlanModel, distributed_stream: bool) -> bool
    decreases p,
{
    &&& !is_boundary(p.kind, distributed_stream)
    &&& !(p.kind is DriverOnly)
    &&& inputs_error(p.kind, p.children.len(), distributed_stream) is None
    &&& forall|i: int|
        0 <= i < p.children.len() ==> is_uncut(#[trigger] p.children[i], distributed_stream)
}

proof fn lemma_uncut(
    p: PlanModel,
    usage: PartitionUsage,
    stages: Seq<StageModel>,
    distributed_stream: bool,
)
    requires
        is_uncut(p, distributed_stream),
    ensures
        built(p, usage, stages, distributed_stream) == Ok::<Built, JobGraphError>(
            Built { plan: p, stages },
        ),
    decreases p, p.children.len() + 1,
{
    if !(p.kind is RecursiveQuery) {
        lemma_uncut_children(p, p.children.len(), usage, stages, distributed_stream);
        assert(p.children.take(p.children.len() as int) =~= p.children);
    }
}

proof fn lemma_uncut_children(
    p: PlanModel,
    k: nat,
    usage: PartitionUsage,
    stages: Seq<StageModel>,
    distributed_stream: bool,
)
    requires
        is_uncut(p, distributed_stream),
        k <= p.children.len(),
    ensures
        built_children(p, k, usage, stages, distributed_stream) == Ok::<
            (Seq<PlanModel>, Seq<StageModel>),
            JobGraphError,
        >((p.children.take(k as int), stages)),
    decreases p, k,
{
    if k > 0 {
        let m = (k - 1) as nat;
        lemma_uncut_children(p, m, usage, stages, distributed_stream);
        assert(is_uncut(p.children[k - 1], distributed_stream));
        lemma_uncut(
            p.children[k - 1],
            input_usage(p.kind, m, usage, distributed_stream),
            stages,
            distributed_stream,
        );
        assert(p.children.take(k as int) =~= p.children.take(m as int).push(p.children[k - 1]));
    } else {
        assert(p.children.take(0) =~= Seq::<PlanModel>::empty());
    }
}

/// A plan without a boundary is one stage. Where streams are not distributed, the exchanges and
/// funnels of streams are no boundaries: a plan whose only spreading is theirs stays in one stage.
pub proof fn law_uncut_plan_is_one_stage(p: PlanModel, distributed_stream: bool)
    requires
        is_uncut(joined(limited(p)), distributed_stream),
    ensures
        job_stages(p, distributed_stream) matches Ok(stages) && stages.len() == 1,
{
    lemma_uncut(joined(limited(p)), PartitionUsage::Once, Seq::empty(), distributed_stream);
}

/// Where streams are distributed, an exchange or a funnel of a stream is cut: its input is a stage
/// of its own, and what is left of it is the output of that stage.
pub proof fn law_distributed_streams_are_cut(
    p: PlanModel,
    usage: PartitionUsage,
    stages: Seq<StageModel>,
)
    requires
        p.kind is StreamExchange || p.kind is StreamBarrierAlign,
        p.children.len() == 1,
    ensures
        match built(p.children[0], PartitionUsage::Once, stages, true) {
            Ok(child) => built(p, usage, stages, true) matches Ok(b) && {
                &&& b.stages.len() == child.stages.len() + 1
                &&& b.stages.last().plan == rewritten(child.plan, 0).plan
                &&& b.plan.kind is StageOutput
            },
            Err(e) => built(p, usage, stages, true) == Err::<Built, JobGraphError>(e),
        },
{
    assert(input_usage(p.kind, 0, usage, true) == PartitionUsage::Once);
    assert(built_children(p, 0, usage, stages, true) == Ok::<
        (Seq<PlanModel>, Seq<StageModel>),
        JobGraphError,
    >((Seq::empty(), stages)));
    assert(built_children(p, 1, usage, stages, true) == match built(
        p.children[0],
        PartitionUsage::Once,
        stages,
        true,
    ) {
        Ok(b) => Ok::<(Seq<PlanModel>, Seq<StageModel>), JobGraphError>(
            (Seq::<PlanModel>::empty().push(b.plan), b.stages),
        ),
        Err(e) => Err(e),
    });
    if let Ok(b) = built(p.children[0], PartitionUsage::Once, stages, true) {
        assert(Seq::<PlanModel>::empty().push(b.plan)[0] == b.plan);
    }
}

proof fn lemma_single_input(
    p: PlanModel,
    usage: PartitionUsage,
    stages: Seq<StageModel>,
    distributed_stream: bool,
)
    requires
        p.children.len() == 1,
        inputs_error(p.kind, 1, distributed_stream) is None,
        !(p.kind is RecursiveQuery),
    ensures
        built(p, usage, stages, distributed_stream) == match built(
            p.children[0],
            input_usage(p.kind, 0, usage, distributed_stream),
            stages,
            distributed_stream,
        ) {
            Ok(c) => cut(
                PlanModel { children: seq![c.plan], ..p },
                usage,
                c.stages,
                distributed_stream,
            ),
            Err(e) => Err::<Built, JobGraphError>(e),
        },
{
    assert(built_children(p, 0, usage, stages, distributed_stream) == Ok::<
        (Seq<PlanModel>, Seq<StageModel>),
        JobGraphError,
    >((Seq::empty(), stages)));
    let part = input_usage(p.kind, 0, usage, distributed_stream);
    assert(built_children(p, 1, usage, stages, distributed_stream) == match built(
        p.children[0],
        part,
        stages,
        distributed_stream,
    ) {
        Ok(b) => Ok::<(Seq<PlanModel>, Seq<StageModel>), JobGraphError>(
            (Seq::<PlanModel>::empty().push(b.plan), b.stages),
        ),
        Err(e) => Err(e),
    });
    if let Ok(b) = built(p.children[0], part, stages, distributed_stream) {
        assert(Seq::<PlanModel>::empty().push(b.plan) =~= seq![b.plan]);
    }
}

/// Whether exactly one stage was cut off: one that runs on workers, with the given plan and
/// distribution, behind the stages that there were.
pub open spec fn adds_stage(
    before: Seq<StageModel>,
    after: Seq<StageModel>,
    plan: PlanModel,
    distribution: OutputDistribution,
) -> bool {
    &&& after.len() == before.len() + 1
    &&& forall|i: int| 0 <= i < before.len() ==> #[trigger] after[i] == before[i]
    &&& after.last().plan == rewritten(plan, 0).plan
    &&& after.last().inputs == rewritten(plan, 0).inputs
    &&& after.last().distribution == distribution
    &&& after.last().mode == OutputMode::Pipelined
    &&& after.last().placement == TaskPlacement::Worker
    &&& after.last().group.len() == 0
}

/// Whether a plan is nothing but the output of a stage, read in a mode and spread by a partitioning.
pub open spec fn reads_stage(
    p: PlanModel,
    stage: int,
    mode: InputMode,
    partitioning: PlanPartitioning,
    partitions: usize,
) -> bool {
    &&& p.kind matches PlanKind::StageOutput { input, replaced } && input.stage == stage
        && input.mode == mode && replaced == Some(partitioning)
    &&& p.partitions == partitions
    &&& p.children.len() == 0
}

/// A spreading by hash is cut: the stage that holds its input spreads its rows by the same keys over
/// as many channels as the spreading has partitions, and what stands in its place reads that stage
/// and has that partitioning.
pub proof fn law_hash_spreading_is_cut(
    p: PlanModel,
    usage: PartitionUsage,
    stages: Seq<StageModel>,
    distributed_stream: bool,
    keys: HashKeys,
    n: usize,
)
    requires
        p.kind == (PlanKind::Repartition {
            partitioning: PlanPartitioning::Hash { keys, partitions: n },
            preserve_order: false,
        }),
        p.children.len() == 1,
    ensures
        match built(p.children[0], PartitionUsage::Once, stages, distributed_stream) {
            Ok(child) => built(p, usage, stages, distributed_stream) is Ok && {
                let b = built(p, usage, stages, distributed_stream)->Ok_0;
                &&& adds_stage(
                    child.stages,
                    b.stages,
                    child.plan,
                    OutputDistribution::Hash { keys, channels: n },
                )
                &&& b.plan.origin == p.origin
                &&& child.stages.len() <= usize::MAX ==> reads_stage(
                    b.plan,
                    child.stages.len() as int,
                    if usage == PartitionUsage::Once {
                        InputMode::Shuffle
                    } else {
                        InputMode::Broadcast
                    },
                    PlanPartitioning::Hash { keys, partitions: n },
                    n,
                )
            },
            Err(e) => built(p, usage, stages, distributed_stream) == Err::<Built, JobGraphError>(e),
        },
{
    reveal_strlit("");
    lemma_single_input(p, usage, stages, distributed_stream);
}

/// A spreading that goes round, or is not known, is cut: the stage that holds its input spreads its
/// rows round over as many channels as the spreading has partitions.
pub proof fn law_round_robin_spreading_is_cut(
    p: PlanModel,
    usage: PartitionUsage,
    stages: Seq<StageModel>,
    distributed_stream: bool,
    n: usize,
)
    requires
        p.kind == (PlanKind::Repartition {
            partitioning: PlanPartitioning::RoundRobinBatch(n),
            preserve_order: false,
        }) || p.kind == (PlanKind::Repartition {
            partitioning: PlanPartitioning::UnknownPartitioning(n),
            preserve_order: false,
        }),
        p.children.len() == 1,
    ensures
        match built(p.children[0], PartitionUsage::Once, stages, distributed_stream) {
            Ok(child) => built(p, usage, stages, distributed_stream) is Ok && {
                let b = built(p, usage, stages, distributed_stream)->Ok_0;
                &&& adds_stage(
                    child.stages,
                    b.stages,
                    child.plan,
                    OutputDistribution::RoundRobin { channels: n },
                )
                &&& b.plan.origin == p.origin
                &&& child.stages.len() <= usize::MAX ==> reads_stage(
                    b.plan,
                    child.stages.len() as int,
                    if usage == PartitionUsage::Once {
                        InputMode::Shuffle
                    } else {
                        InputMode::Broadcast
                    },
                    PlanPartitioning::RoundRobinBatch(n),
                    n,
                )
            },
            Err(e) => built(p, usage, stages, distributed_stream) == Err::<Built, JobGraphError>(e),
        },
{
    reveal_strlit("");
    lemma_single_input(p, usage, stages, distributed_stream);
}

/// A spreading that keeps the order of rows is refused, once its input can be built.
pub proof fn law_ordered_spreading_is_refused(
    p: PlanModel,
    usage: PartitionUsage,
    stages: Seq<StageModel>,
    distributed_stream: bool,
)
    requires
        p.kind matches PlanKind::Repartition { preserve_order, .. } && preserve_order,
        p.children.len() == 1,
    ensures
        built(p, usage, stages, distributed_stream) == Err::<Built, JobGraphError>(
            match built(p.children[0], PartitionUsage::Once, stages, distributed_stream) {
                Ok(_) => JobGraphError::OrderPreservingRepartition,
                Err(e) => e,
            },
        ),
{
    lemma_single_input(p, usage, stages, distributed_stream);
}

/// A gathering is cut: the stage that holds its input has one channel, and what stands in its place
/// is one partition that reads it, under a limit where the gathering has one.
pub proof fn law_gathering_is_cut(
    p: PlanModel,
    usage: PartitionUsage,
    stages: Seq<StageModel>,
    distributed_stream: bool,
    limit: Option<usize>,
)
    requires
        p.kind == (PlanKind::CoalescePartitions { fetch: limit }) || (limit is None
            && distributed_stream && p.kind == PlanKind::StreamBarrierAlign),
        p.children.len() == 1,
    ensures
        match built(p.children[0], PartitionUsage::Once, stages, distributed_stream) {
            Ok(child) => built(p, usage, stages, distributed_stream) is Ok && {
                let b = built(p, usage, stages, distributed_stream)->Ok_0;
                let reader = if limit is Some {
                    b.plan.children[0]
                } else {
                    b.plan
                };
                &&& adds_stage(
                    child.stages,
                    b.stages,
                    child.plan,
                    OutputDistribution::RoundRobin { channels: 1 },
                )
                &&& limit is Some ==> b.plan.kind == (PlanKind::GlobalLimit {
                    skip: 0,
                    fetch: limit,
                }) && b.plan.children.len() == 1 && b.plan.partitions == 1 && b.plan.origin is None
                &&& reader.origin == p.origin
                &&& child.stages.len() <= usize::MAX ==> reads_stage(
                    reader,
                    child.stages.len() as int,
                    if usage == PartitionUsage::Once {
                        InputMode::Shuffle
                    } else {
                        InputMode::Broadcast
                    },
                    PlanPartitioning::UnknownPartitioning(1),
                    1,
                )
            },
            Err(e) => built(p, usage, stages, distributed_stream) == Err::<Built, JobGraphError>(e),
        },
{
    reveal_strlit("");
    lemma_single_input(p, usage, stages, distributed_stream);
}

/// A merge of sorted partitions stays, and what it merges is a stage of its own with one channel,
/// whose partitions are all read.
pub proof fn law_sorted_merge_is_cut(
    p: PlanModel,
    usage: PartitionUsage,
    stages: Seq<StageModel>,
    distributed_stream: bool,
)
    requires
        p.kind is SortPreservingMerge,
        p.children.len() == 1,
    ensures
        match built(p.children[0], PartitionUsage::Once, stages, distributed_stream) {
            Ok(child) => built(p, usage, stages, distributed_stream) is Ok && {
                let b = built(p, usage, stages, distributed_stream)->Ok_0;
                let reader = b.plan.children[0];
                &&& adds_stage(
                    child.stages,
                    b.stages,
                    child.plan,
                    OutputDistribution::RoundRobin { channels: 1 },
                )
                &&& b.plan.kind == p.kind && b.plan.origin == p.origin && b.plan.partitions
                    == p.partitions && b.plan.children.len() == 1
                &&& reader.origin == child.plan.origin
                &&& reader.partitions == child.plan.partitions
                &&& reader.children.len() == 0
                &&& child.stages.len() <= usize::MAX ==> reader.kind == (PlanKind::StageOutput {
                    input: (StageInput {
                        stage: child.stages.len() as usize,
                        mode: InputMode::Merge,
                    }),
                    replaced: None,
                })
            },
            Err(e) => built(p, usage, stages, distributed_stream) == Err::<Built, JobGraphError>(e),
        },
{
    reveal_strlit("");
    lemma_single_input(p, usage, stages, distributed_stream);
}

/// Where streams are distributed, an exchange of a stream is cut as it says: by the same keys, over
/// as many channels as it has partitions.
pub proof fn law_stream_exchange_is_cut(
    p: PlanModel,
    usage: PartitionUsage,
    stages: Seq<StageModel>,
    partitioning: PlanPartitioning,
)
    requires
        p.kind == (PlanKind::StreamExchange { partitioning }),
        p.children.len() == 1,
    ensures
        match built(p.children[0], PartitionUsage::Once, stages, true) {
            Ok(child) => built(p, usage, stages, true) is Ok && {
                let b = built(p, usage, stages, true)->Ok_0;
                &&& adds_stage(
                    child.stages,
                    b.stages,
                    child.plan,
                    match partitioning {
                        PlanPartitioning::Hash { keys, partitions } => OutputDistribution::Hash {
                            keys,
                            channels: partitions,
                        },
                        PlanPartitioning::RoundRobinBatch(n) => OutputDistribution::RoundRobin {
                            channels: n,
                        },
                        PlanPartitioning::UnknownPartitioning(n) => OutputDistribution::RoundRobin {
                            channels: n,
                        },
                    },
                )
                &&& b.plan.origin == p.origin
                &&& child.stages.len() <= usize::MAX ==> reads_stage(
                    b.plan,
                    child.stages.len() as int,
                    if usage == PartitionUsage::Once {
                        InputMode::Shuffle
                    } else {
                        InputMode::Broadcast
                    },
                    partitioning,
                    match partitioning {
                        PlanPartitioning::Hash { keys: _, partitions } => partitions,
                        PlanPartitioning::RoundRobinBatch(n) => n,
                        PlanPartitioning::UnknownPartitioning(n) => n,
                    },
                )
            },
            Err(e) => built(p, usage, stages, true) == Err::<Built, JobGraphError>(e),
        },
{
    reveal_strlit("");
    lemma_single_input(p, usage, stages, true);
}

/// An operator of the driver is a stage of its own there, and is read partition by partition; it has
/// no inputs.
pub proof fn law_driver_operators_run_in_the_driver(
    p: PlanModel,
    usage: PartitionUsage,
    stages: Seq<StageModel>,
    distributed_stream: bool,
)
    requires
        p.kind is DriverOnly,
    ensures
        p.children.len() > 0 ==> built(p, usage, stages, distributed_stream) is Err,
        p.children.len() == 0 ==> built(p, usage, stages, distributed_stream) is Ok && {
            let b = built(p, usage, stages, distributed_stream)->Ok_0;
            &&& b.stages.len() == stages.len() + 1
            &&& forall|i: int| 0 <= i < stages.len() ==> #[trigger] b.stages[i] == stages[i]
            &&& b.stages.last().plan == p
            &&& b.stages.last().inputs.len() == 0
            &&& b.stages.last().placement == TaskPlacement::Driver
            &&& b.stages.last().mode == OutputMode::Pipelined
            &&& b.stages.last().distribution == (OutputDistribution::RoundRobin { channels: 1 })
            &&& b.plan.origin == p.origin && b.plan.partitions == p.partitions
                && b.plan.children.len() == 0
            &&& stages.len() <= usize::MAX ==> b.plan.kind == (PlanKind::StageOutput {
                input: (StageInput { stage: stages.len() as usize, mode: InputMode::Forward }),
                replaced: None,
            })
        },
{
    if p.children.len() == 0 {
        assert(built_children(p, 0, usage, stages, distributed_stream) == Ok::<
            (Seq<PlanModel>, Seq<StageModel>),
            JobGraphError,
        >((Seq::empty(), stages)));
        assert(PlanModel { children: Seq::<PlanModel>::empty(), ..p } =~= p) by {
            assert(p.children =~= Seq::<PlanModel>::empty());
        }
    } else if let Ok((children, known)) = built_children(
        p,
        p.children.len(),
        usage,
        stages,
        distributed_stream,
    ) {
        lemma_built_children_len(p, p.children.len(), usage, stages, distributed_stream);
    }
}

/// A recursive query is kept whole, in the stage of its reader.
pub proof fn law_recursive_queries_are_kept_whole(
    p: PlanModel,
    usage: PartitionUsage,
    stages: Seq<StageModel>,
    distributed_stream: bool,
)
    requires
        p.kind is RecursiveQuery,
    ensures
        built(p, usage, stages, distributed_stream) == Ok::<Built, JobGraphError>(
            Built { plan: p, stages },
        ),
{
}

/// A join has two inputs and a decided mode, and what spreads, gathers or merges has one input:
/// otherwise the plan is refused.
pub proof fn law_malformed_operators_are_refused(
    p: PlanModel,
    usage: PartitionUsage,
    stages: Seq<StageModel>,
    distributed_stream: bool,
)
    ensures
        (p.kind is HashJoin || p.kind is LoopJoin) && p.children.len() != 2 ==> built(
            p,
            usage,
            stages,
            distributed_stream,
        ) is Err,
        p.kind matches PlanKind::HashJoin { mode, .. } ==> mode == PartitionMode::Auto ==> built(
            p,
            usage,
            stages,
            distributed_stream,
        ) is Err,
        (p.kind is Repartition || p.kind is CoalescePartitions || p.kind is SortPreservingMerge)
            && p.children.len() != 1 ==> built(p, usage, stages, distributed_stream) is Err,
        distributed_stream && (p.kind is StreamExchange || p.kind is StreamBarrierAlign)
            && p.children.len() != 1 ==> built(p, usage, stages, distributed_stream) is Err,
{
}

/// Every operator that is not cut stays with its own properties, over what is left of its inputs,
/// which are built from the first to the last, each behind the stages of the one before. The input
/// of a join that is gathered is read by all partitions; any other is read as the operator is.
pub proof fn law_other_operators_stay(
    p: PlanModel,
    usage: PartitionUsage,
    stages: Seq<StageModel>,
    distributed_stream: bool,
)
    requires
        p.kind is GlobalLimit || p.kind is HashJoin || p.kind is LoopJoin || p.kind is Other || (
        !distributed_stream && (p.kind is StreamExchange || p.kind is StreamBarrierAlign)),
        built(p, usage, stages, distributed_stream) is Ok,
    ensures
        ({
            let b = built(p, usage, stages, distributed_stream)->Ok_0;
            let gathers = p.kind is LoopJoin || (p.kind matches PlanKind::HashJoin { mode, .. }
                && mode == PartitionMode::CollectLeft);
            &&& b.plan.kind == p.kind && b.plan.origin == p.origin && b.plan.partitions
                == p.partitions
            &&& b.plan.children.len() == p.children.len()
            &&& exists|known: Seq<Seq<StageModel>>|
                {
                    &&& known.len() == p.children.len() + 1
                    &&& known[0] == stages
                    &&& known.last() == b.stages
                    &&& forall|i: int|
                        0 <= i < p.children.len() ==> built(
                            #[trigger] p.children[i],
                            if i == 0 && gathers {
                                PartitionUsage::Shared
                            } else {
                                usage
                            },
                            known[i],
                            distributed_stream,
                        ) == Ok::<Built, JobGraphError>(
                            Built { plan: b.plan.children[i], stages: known[i + 1] },
                        )
                }
        }),
{
    let known = lemma_chain(p, p.children.len(), usage, stages, distributed_stream);
    let b = built(p, usage, stages, distributed_stream)->Ok_0;
    let gathers = p.kind is LoopJoin || (p.kind matches PlanKind::HashJoin { mode, .. } && mode
        == PartitionMode::CollectLeft);
    assert forall|i: int| 0 <= i < p.children.len() implies built(
        #[trigger] p.children[i],
        if i == 0 && gathers {
            PartitionUsage::Shared
        } else {
            usage
        },
        known[i],
        distributed_stream,
    ) == Ok::<Built, JobGraphError>(
        Built { plan: b.plan.children[i], stages: known[i + 1] },
    ) by {
        assert(input_usage(p.kind, i as nat, usage, distributed_stream) == if i == 0 && gathers {
            PartitionUsage::Shared
        } else {
            usage
        });
    }
}

proof fn lemma_chain(
    p: PlanModel,
    k: nat,
    usage: PartitionUsage,
    stages: Seq<StageModel>,
    distributed_stream: bool,
) -> (known: Seq<Seq<StageModel>>)
    requires
        k <= p.children.len(),
        built_children(p, k, usage, stages, distributed_stream) is Ok,
    ensures
        known.len() == k + 1,
        known[0] == stages,
        known.last() == built_children(p, k, usage, stages, distributed_stream)->Ok_0.1,
        built_children(p, k, usage, stages, distributed_stream)->Ok_0.0.len() == k,
        forall|i: int|
            0 <= i < k ==> built(
                #[trigger] p.children[i],
                input_usage(p.kind, i as nat, usage, distributed_stream),
                known[i],
                distributed_stream,
            ) == Ok::<Built, JobGraphError>(
                Built {
                    plan: built_children(p, k, usage, stages, distributed_stream)->Ok_0.0[i],
                    stages: known[i + 1],
                },
            ),
    decreases k,
{
    if k == 0 {
        seq![stages]
    } else {
        let m = (k - 1) as nat;
        let before = lemma_chain(p, m, usage, stages, distributed_stream);
        let all = built_children(p, k, usage, stages, distributed_stream)->Ok_0;
        let first = built_children(p, m, usage, stages, distributed_stream)->Ok_0;
        let part = input_usage(p.kind, m, usage, distributed_stream);
        let b = built(p.children[k - 1], part, first.1, distributed_stream)->Ok_0;
        let known = before.push(all.1);
        assert(all.0 == first.0.push(b.plan) && all.1 == b.stages);
        assert forall|i: int| 0 <= i < k implies built(
            #[trigger] p.children[i],
            input_usage(p.kind, i as nat, usage, distributed_stream),
            known[i],
            distributed_stream,
        ) == Ok::<Built, JobGraphError>(Built { plan: all.0[i], stages: known[i + 1] }) by {
            if i < m {
                assert(known[i] == before[i] && known[i + 1] == before[i + 1]);
                assert(all.0[i] == first.0[i]);
            } else {
                assert(known[i] == first.1);
            }
        }
        known
    }
}

/// Whether every limit of a plan that cuts something is over one partition.
pub open spec fn limits_one_partition(p: PlanModel) -> bool
    decreases p,
{
    &&& p.kind matches PlanKind::GlobalLimit { skip, fetch } ==> (skip > 0 || fetch is Some)
        && p.children.len() == 1 ==> p.children[0].partitions <= 1
    &&& forall|i: int| 0 <= i < p.children.len() ==> limits_one_partition(#[trigger] p.children[i])
}

/// After the limits were treated, every limit is over one partition.
pub proof fn law_limits_are_over_one_partition(p: PlanModel)
    ensures
        limits_one_partition(limited(p)),
    decreases p,
{
    let q = limited(p);
    let children = limited_children(p);
    assert forall|i: int| 0 <= i < children.len() implies limits_one_partition(
        #[trigger] children[i],
    ) by {
        law_limits_are_over_one_partition(p.children[i]);
    }
    let plain = PlanModel { children, ..p };
    if q != plain {
        let c = coalesced(children[0]);
        assert(q.children =~= seq![c]);
        assert(limits_one_partition(children[0]));
        assert forall|i: int| 0 <= i < c.children.len() implies limits_one_partition(
            #[trigger] c.children[i],
        ) by {
            assert(c.children[i] == children[0]);
        }
        assert(limits_one_partition(c));
        assert forall|i: int| 0 <= i < q.children.len() implies limits_one_partition(
            #[trigger] q.children[i],
        ) by {
            assert(q.children[i] == c);
        }
    }
}

/// Treating the limits leaves every operator as it is, over its treated inputs; but for a limit over
/// several partitions, the input of which is gathered into one.
pub proof fn law_limits_change_nothing_else(p: PlanModel)
    ensures
        limited(p).kind == p.kind,
        limited(p).origin == p.origin,
        limited(p).partitions == p.partitions,
        limited(p).children.len() == p.children.len(),
        !(p.kind is GlobalLimit) || p.children.len() != 1 || p.children[0].partitions <= 1 ==> forall|
            i: int,
        |
            0 <= i < p.children.len() ==> #[trigger] limited(p).children[i] == limited(
                p.children[i],
            ),
        p.kind == (PlanKind::GlobalLimit { skip: 0, fetch: None }) ==> forall|i: int|
            0 <= i < p.children.len() ==> #[trigger] limited(p).children[i] == limited(
                p.children[i],
            ),
        p.kind matches PlanKind::GlobalLimit { skip, fetch } ==> (skip > 0 || fetch is Some)
            && p.children.len() == 1 && p.children[0].partitions > 1 ==> {
            let inner = limited(p).children[0];
            &&& inner.kind == (PlanKind::CoalescePartitions { fetch: None })
            &&& inner.partitions == 1
            &&& inner.origin is None
            &&& inner.children.len() == 1
            &&& inner.children[0] == limited(p.children[0])
        },
{
    let children = limited_children(p);
    if p.children.len() == 1 {
        assert(children[0] == limited(p.children[0]));
        assert(limited(p.children[0]).partitions == p.children[0].partitions) by {
            let c = p.children[0];
            assert(limited(c) == limited_node(PlanModel { children: limited_children(c), ..c }));
        }
    }
}

/// Whether no join of a plan gathers a left side whose unmatched rows count.
pub open spec fn joins_by_partition(p: PlanModel) -> bool
    decreases p,
{
    &&& p.kind matches PlanKind::HashJoin { mode, join_type } ==> p.children.len() == 2 && (
    join_type == JoinType::Left || join_type == JoinType::LeftAnti || join_type
        == JoinType::LeftSemi || join_type == JoinType::LeftMark || join_type == JoinType::Full)
        ==> mode != PartitionMode::CollectLeft
    &&& forall|i: int| 0 <= i < p.children.len() ==> joins_by_partition(#[trigger] p.children[i])
}

proof fn lemma_repartitioned_joins(p: PlanModel, keys: HashKeys, count: usize)
    requires
        joins_by_partition(p),
    ensures
        joins_by_partition(repartitioned(p, keys, count)),
{
    let q = repartitioned(p, keys, count);
    assert forall|i: int| 0 <= i < q.children.len() implies joins_by_partition(
        #[trigger] q.children[i],
    ) by {
        if q.children[0] != p {
            assert(joins_by_partition(p.children[0]));
        }
    }
}

/// After the joins were treated, none gathers a left side whose unmatched rows count.
pub proof fn law_joins_are_by_partition(p: PlanModel)
    ensures
        joins_by_partition(joined(p)),
    decreases p,
{
    let q = joined(p);
    let children = joined_children(p);
    assert forall|i: int| 0 <= i < children.len() implies joins_by_partition(
        #[trigger] children[i],
    ) by {
        law_joins_are_by_partition(p.children[i]);
    }
    let plain = PlanModel { children, ..p };
    if q != plain {
        let count = children[1].partitions;
        lemma_repartitioned_joins(children[0], HashKeys::JoinLeft(p.origin), count);
        lemma_repartitioned_joins(children[1], HashKeys::JoinRight(p.origin), count);
        assert forall|i: int| 0 <= i < q.children.len() implies joins_by_partition(
            #[trigger] q.children[i],
        ) by {
            assert(i == 0 || i == 1);
        }
    }
}

/// Whether a plan is a spreading by hash over what another gives, but for a spreading or gathering
/// that stood on top of it.
pub open spec fn spreads(q: PlanModel, p: PlanModel, keys: HashKeys, count: usize) -> bool {
    &&& q.kind == (PlanKind::Repartition {
        partitioning: (PlanPartitioning::Hash { keys, partitions: count }),
        preserve_order: false,
    })
    &&& q.partitions == count
    &&& q.origin is None
    &&& q.children.len() == 1
    &&& if (p.kind is Repartition || p.kind is CoalescePartitions) && p.children.len() == 1 {
        q.children[0] == p.children[0]
    } else {
        q.children[0] == p
    }
}

/// Treating the joins leaves every operator as it is, over its treated inputs; but for a join that
/// gathers a left side whose unmatched rows count, which becomes one by partition, both inputs of
/// which are spread by its keys over as many partitions as its right side had.
pub proof fn law_joins_change_nothing_else(p: PlanModel)
    ensures
        joined(p).origin == p.origin,
        joined(p).partitions == p.partitions,
        joined(p).children.len() == p.children.len(),
        ({
            let treated = p.kind matches PlanKind::HashJoin { mode, join_type } && mode
                == PartitionMode::CollectLeft && p.children.len() == 2 && (join_type
                == JoinType::Left || join_type == JoinType::LeftAnti || join_type
                == JoinType::LeftSemi || join_type == JoinType::LeftMark || join_type
                == JoinType::Full);
            if treated {
                let count = joined(p.children[1]).partitions;
                &&& joined(p).kind == (PlanKind::HashJoin {
                    mode: PartitionMode::Partitioned,
                    join_type: p.kind->join_type,
                })
                &&& spreads(
                    joined(p).children[0],
                    joined(p.children[0]),
                    HashKeys::JoinLeft(p.origin),
                    count,
                )
                &&& spreads(
                    joined(p).children[1],
                    joined(p.children[1]),
                    HashKeys::JoinRight(p.origin),
                    count,
                )
                &&& count == p.children[1].partitions
            } else {
                &&& joined(p).kind == p.kind
                &&& forall|i: int|
                    0 <= i < p.children.len() ==> #[trigger] joined(p).children[i] == joined(
                        p.children[i],
                    )
            }
        }),
{
    let children = joined_children(p);
    if p.children.len() == 2 {
        assert(children[1] == joined(p.children[1]));
        assert(children[0] == joined(p.children[0]));
        let c = p.children[1];
        assert(joined(c) == joined_node(PlanModel { children: joined_children(c), ..c }));
    }
}

/// A plan in which the inputs with a number became the outputs of stages again.
pub open spec fn connected(p: PlanModel, inputs: Seq<StageInput>) -> PlanModel
    decreases p,
{
    match p.kind {
        PlanKind::StageInputIndex { index, replaced } => PlanModel {
            kind: PlanKind::StageOutput { input: inputs[index as int], replaced },
            children: Seq::empty(),
            ..p
        },
        _ => PlanModel {
            children: Seq::new(
                p.children.len(),
                |i: int|
                    if 0 <= i < p.children.len() {
                        connected(p.children[i], inputs)
                    } else {
                        arbitrary()
                    },
            ),
            ..p
        },
    }
}

/// Whether a plan has no input with a number, and the outputs of stages in it have no inputs.
pub open spec fn is_unnumbered(p: PlanModel) -> bool
    decreases p,
{
    &&& !(p.kind is StageInputIndex)
    &&& p.kind is StageOutput ==> p.children.len() == 0
    &&& forall|i: int| 0 <= i < p.children.len() ==> is_unnumbered(#[trigger] p.children[i])
}

/// The outputs of stages that a plan reads, from left to right.
pub open spec fn outputs_of(p: PlanModel) -> Seq<StageInput>
    decreases p, 1nat,
{
    match p.kind {
        PlanKind::StageOutput { input, .. } => seq![input],
        _ => outputs_by_child(p).flatten(),
    }
}

/// The outputs of stages that each child of a plan reads.
pub open spec fn outputs_by_child(p: PlanModel) -> Seq<Seq<StageInput>>
    decreases p, 0nat,
{
    Seq::new(
        p.children.len(),
        |i: int|
            if 0 <= i < p.children.len() {
                outputs_of(p.children[i])
            } else {
                Seq::empty()
            },
    )
}

proof fn lemma_outputs(p: PlanModel, n: nat)
    ensures
        rewritten(p, n).inputs == outputs_of(p),
    decreases p, p.children.len() + 1,
{
    if !(p.kind is StageOutput) {
        let parts = outputs_by_child(p);
        lemma_outputs_of_children(p, p.children.len(), n, parts);
        assert(parts.take(p.children.len() as int) =~= parts);
    }
}

proof fn lemma_outputs_of_children(p: PlanModel, k: nat, n: nat, parts: Seq<Seq<StageInput>>)
    requires
        k <= p.children.len(),
        parts.len() == p.children.len(),
        forall|i: int| 0 <= i < parts.len() ==> #[trigger] parts[i] == outputs_of(p.children[i]),
    ensures
        rewritten_children(p, k, n).1 == parts.take(k as int).flatten(),
        rewritten_children(p, k, n).0.len() == k,
    decreases p, k,
{
    if k > 0 {
        let m = (k - 1) as nat;
        lemma_outputs_of_children(p, m, n, parts);
        let known = rewritten_children(p, m, n).1;
        lemma_outputs(p.children[k - 1], n + known.len());
        assert(parts.take(k as int) =~= parts.take(m as int).push(parts[k - 1]));
        parts.take(m as int).lemma_flatten_push(parts[k - 1]);
    } else {
        assert(parts.take(0) =~= Seq::<Seq<StageInput>>::empty());
        assert(Seq::<Seq<StageInput>>::empty().flatten() =~= Seq::<StageInput>::empty());
    }
}

proof fn lemma_connected(p: PlanModel, n: nat, inputs: Seq<StageInput>)
    requires
        is_unnumbered(p),
        inputs.len() <= usize::MAX,
        n + rewritten(p, n).inputs.len() <= inputs.len(),
        forall|i: int|
            0 <= i < rewritten(p, n).inputs.len() ==> inputs[n + i] == #[trigger] rewritten(
                p,
                n,
            ).inputs[i],
    ensures
        connected(rewritten(p, n).plan, inputs) == p,
    decreases p, p.children.len() + 1,
{
    let r = rewritten(p, n);
    if p.kind is StageOutput {
        assert(inputs[n + 0int] == r.inputs[0]);
        assert(p.children =~= Seq::<PlanModel>::empty());
        assert(n as usize == n);
    } else {
        lemma_connected_children(p, p.children.len(), n, inputs);
        let back = connected(r.plan, inputs);
        assert(back.children =~= p.children);
    }
}

proof fn lemma_connected_children(p: PlanModel, k: nat, n: nat, inputs: Seq<StageInput>)
    requires
        is_unnumbered(p),
        k <= p.children.len(),
        inputs.len() <= usize::MAX,
        n + rewritten_children(p, k, n).1.len() <= inputs.len(),
        forall|i: int|
            0 <= i < rewritten_children(p, k, n).1.len() ==> inputs[n + i]
                == #[trigger] rewritten_children(p, k, n).1[i],
    ensures
        rewritten_children(p, k, n).0.len() == k,
        forall|i: int|
            0 <= i < k ==> connected(#[trigger] rewritten_children(p, k, n).0[i], inputs)
                == p.children[i],
    decreases p, k,
{
    if k > 0 {
        let m = (k - 1) as nat;
        let (children, known) = rewritten_children(p, m, n);
        let child = rewritten(p.children[k - 1], n + known.len());
        let all = known + child.inputs;
        assert(rewritten_children(p, k, n).1 == all);
        assert forall|i: int| 0 <= i < known.len() implies inputs[n + i] == #[trigger] known[i] by {
            assert(all[i] == known[i]);
        }
        lemma_connected_children(p, m, n, inputs);
        assert forall|i: int| 0 <= i < child.inputs.len() implies inputs[n + known.len() + i]
            == #[trigger] child.inputs[i] by {
            assert(all[known.len() + i] == child.inputs[i]);
            assert(n + (known.len() + i) == n + known.len() + i);
        }
        assert(is_unnumbered(p.children[k - 1]));
        lemma_connected(p.children[k - 1], n + known.len(), inputs);
        let now = rewritten_children(p, k, n).0;
        assert(now == children.push(child.plan));
        assert forall|i: int| 0 <= i < k implies connected(#[trigger] now[i], inputs)
            == p.children[i] by {
            if i < m {
                assert(now[i] == children[i]);
            }
        }
    }
}

/// A stage loses nothing of its plan: with the outputs of stages put back for its numbered inputs it
/// is the plan again, and its inputs are the outputs that the plan reads, from left to right.
pub proof fn law_stage_inputs_stand_for_outputs(p: PlanModel)
    requires
        is_unnumbered(p),
        rewritten(p, 0).inputs.len() <= usize::MAX,
    ensures
        connected(rewritten(p, 0).plan, rewritten(p, 0).inputs) == p,
        rewritten(p, 0).inputs == outputs_of(p),
{
    lemma_connected(p, 0, rewritten(p, 0).inputs);
    lemma_outputs(p, 0);
}

/// The last stage of a job holds what is left of the whole plan, runs on workers and has one channel;
/// the stages before it are those that were cut off. A plan is refused where it cannot be cut.
pub proof fn law_last_stage_holds_the_rest(p: PlanModel, distributed_stream: bool)
    ensures
        match built(joined(limited(p)), PartitionUsage::Once, Seq::empty(), distributed_stream) {
            Ok(b) => job_stages(p, distributed_stream) is Ok && adds_stage(
                b.stages,
                job_stages(p, distributed_stream)->Ok_0,
                b.plan,
                OutputDistribution::RoundRobin { channels: 1 },
            ),
            Err(e) => job_stages(p, distributed_stream) == Err::<Seq<StageModel>, JobGraphError>(e),
        },
{
    reveal_strlit("");
}

} // verus!
