use datafusion::arrow::array::{
    new_null_array, ArrayRef, AsArray, BinaryArray, BooleanArray, Int64Array, RecordBatch,
};
use datafusion::arrow::datatypes::{DataType, Field, Int64Type, Schema};
use datafusion::physical_expr::expressions::Column;
use datafusion::physical_expr::{Partitioning, PhysicalExpr};
use datafusion::physical_plan::repartition::BatchPartitioner;
use std::sync::Arc;
use vajra::flow::{is_marker_batch, MARKER_FIELD_NAME, RETRACTED_FIELD_NAME};
use vajra::job_graph::{
    HashKeys, InputMode, JobGraph, JobGraphError, JoinType, OutputDistribution, PartitionMode,
    Plan, PlanKind, PlanPartitioning,
};
use vajra::record_batch::Batch;
use vajra::shuffle::{
    open_partitioner, open_pieces, route, PartitionerError, RouteError, ShuffleError, ShuffleKey,
    ShufflePartitioning, ShuffleSinks, ShuffleWriteExec, WriteOutcome,
};
use vajra::stream_service::{coalesce_target, TaskStreamKey, TaskStreamTicket};
use vajra::ids::JobId;
use vajra::task_assigner::TaskPlacement;

fn node(origin: u64, kind: PlanKind, partitions: usize, children: Vec<Plan>) -> Plan {
    Plan { origin: Some(origin), kind, partitions, children }
}

fn leaf(origin: u64, partitions: usize) -> Plan {
    node(origin, PlanKind::Other, partitions, vec![])
}

fn single_partition_stream_exchange() -> Plan {
    let partitioning = PlanPartitioning::Hash { keys: HashKeys::Operator(Some(1)), partitions: 3 };
    node(1, PlanKind::StreamExchange { partitioning }, 3, vec![leaf(2, 1)])
}

fn stream_barrier_align_funnel() -> Plan {
    node(1, PlanKind::StreamBarrierAlign, 1, vec![leaf(2, 1)])
}

#[test]
fn gate_off_keeps_stream_exchange_inline_single_stage() {
    let graph =
        JobGraph::try_new_with_distributed_stream(&single_partition_stream_exchange(), false)
            .unwrap();
    assert_eq!(graph.stages.len(), 1, "gate off must not cut a stage boundary");
}

#[test]
fn gate_on_cuts_stream_exchange_stage_boundary() {
    let graph =
        JobGraph::try_new_with_distributed_stream(&single_partition_stream_exchange(), true)
            .unwrap();
    assert_eq!(
        graph.stages.len(),
        2,
        "gate on must cut the streaming exchange into a producer + consumer stage"
    );
    assert_eq!(
        graph.stages[0].distribution,
        OutputDistribution::Hash { keys: HashKeys::Operator(Some(1)), channels: 3 }
    );
    assert_eq!(graph.stages[1].inputs[0].stage, 0);
    assert_eq!(graph.stages[1].inputs[0].mode, InputMode::Shuffle);
}

#[test]
fn gate_off_keeps_stream_barrier_align_inline() {
    let graph =
        JobGraph::try_new_with_distributed_stream(&stream_barrier_align_funnel(), false).unwrap();
    assert_eq!(graph.stages.len(), 1, "gate off must not cut the funnel");
}

#[test]
fn gate_on_cuts_stream_barrier_align_funnel_boundary() {
    let graph =
        JobGraph::try_new_with_distributed_stream(&stream_barrier_align_funnel(), true).unwrap();
    assert_eq!(
        graph.stages.len(),
        2,
        "gate on must cut the funnel so the window child runs as its own distributed stage"
    );
    assert_eq!(graph.stages[0].distribution, OutputDistribution::RoundRobin { channels: 1 });
}

#[test]
fn the_setting_opens_the_gate() {
    let plan = stream_barrier_align_funnel();
    assert_eq!(JobGraph::try_new(&plan, None).unwrap().stages.len(), 1);
    assert_eq!(JobGraph::try_new(&plan, None).unwrap().schema_origin, plan.origin);
    assert_eq!(JobGraph::try_new(&plan, Some("0")).unwrap().stages.len(), 1);
    assert_eq!(JobGraph::try_new(&plan, Some("1")).unwrap().stages.len(), 2);
}

#[test]
fn limits_run_over_one_partition() {
    let limit = PlanKind::GlobalLimit { skip: 0, fetch: Some(5) };
    let graph = JobGraph::try_new(&node(1, limit, 1, vec![leaf(2, 4)]), None).unwrap();
    assert_eq!(graph.stages.len(), 2);
    assert_eq!(graph.stages[0].plan.origin, Some(2));
    assert_eq!(graph.stages[1].plan.kind, limit);
    let open = PlanKind::GlobalLimit { skip: 0, fetch: None };
    let graph = JobGraph::try_new(&node(1, open, 1, vec![leaf(2, 4)]), None).unwrap();
    assert_eq!(graph.stages.len(), 1);
}

#[test]
fn joins_that_keep_unmatched_left_rows_are_partitioned() {
    let join = |join_type| PlanKind::HashJoin { mode: PartitionMode::CollectLeft, join_type };
    let left = node(
        2,
        PlanKind::CoalescePartitions { fetch: None },
        1,
        vec![leaf(3, 6)],
    );
    let plan = node(1, join(JoinType::Left), 4, vec![left, leaf(4, 4)]);
    let graph = JobGraph::try_new(&plan, None).unwrap();
    assert_eq!(graph.stages.len(), 3);
    assert_eq!(
        graph.stages[0].distribution,
        OutputDistribution::Hash { keys: HashKeys::JoinLeft(Some(1)), channels: 4 }
    );
    assert_eq!(graph.stages[0].plan.origin, Some(3));
    assert_eq!(
        graph.stages[1].distribution,
        OutputDistribution::Hash { keys: HashKeys::JoinRight(Some(1)), channels: 4 }
    );
    assert_eq!(
        graph.stages[2].plan.kind,
        PlanKind::HashJoin { mode: PartitionMode::Partitioned, join_type: JoinType::Left }
    );

    let left = node(
        2,
        PlanKind::CoalescePartitions { fetch: None },
        1,
        vec![leaf(3, 6)],
    );
    let plan = node(1, join(JoinType::Inner), 4, vec![left, leaf(4, 4)]);
    let graph = JobGraph::try_new(&plan, None).unwrap();
    assert_eq!(graph.stages.len(), 2);
    assert_eq!(graph.stages[1].inputs[0].mode, InputMode::Broadcast);
}

#[test]
fn gathered_side_of_a_loop_join_is_read_often() {
    let spread = PlanKind::Repartition {
        partitioning: PlanPartitioning::UnknownPartitioning(2),
        preserve_order: false,
    };
    let left = node(2, spread, 2, vec![leaf(3, 1)]);
    let right = node(4, spread, 2, vec![leaf(5, 1)]);
    let graph = JobGraph::try_new(&node(1, PlanKind::LoopJoin, 2, vec![left, right]), None).unwrap();
    let modes: Vec<InputMode> = graph.stages[2].inputs.iter().map(|i| i.mode).collect();
    assert_eq!(modes, vec![InputMode::Broadcast, InputMode::Shuffle]);
    assert_eq!(graph.stages[0].distribution, OutputDistribution::RoundRobin { channels: 2 });
}

#[test]
fn merges_and_fetches_are_kept_above_their_input() {
    let merge = node(1, PlanKind::SortPreservingMerge, 1, vec![leaf(2, 3)]);
    let graph = JobGraph::try_new(&merge, None).unwrap();
    assert_eq!(graph.stages.len(), 2);
    assert_eq!(graph.stages[1].plan.kind, PlanKind::SortPreservingMerge);
    assert_eq!(graph.stages[1].inputs[0].mode, InputMode::Merge);

    let fetch = node(1, PlanKind::CoalescePartitions { fetch: Some(9) }, 1, vec![leaf(2, 3)]);
    let graph = JobGraph::try_new(&fetch, None).unwrap();
    assert_eq!(graph.stages[1].plan.kind, PlanKind::GlobalLimit { skip: 0, fetch: Some(9) });
}

#[test]
fn driver_operators_are_stages_of_the_driver() {
    let graph = JobGraph::try_new(&node(1, PlanKind::DriverOnly, 1, vec![]), None).unwrap();
    assert_eq!(graph.stages.len(), 2);
    assert_eq!(graph.stages[0].placement, TaskPlacement::Driver);
    assert_eq!(graph.stages[1].inputs[0].mode, InputMode::Forward);
}

#[test]
fn recursive_queries_stay_whole() {
    let spread = node(2, PlanKind::CoalescePartitions { fetch: None }, 1, vec![leaf(3, 3)]);
    let graph = JobGraph::try_new(&node(1, PlanKind::RecursiveQuery, 1, vec![spread]), None).unwrap();
    assert_eq!(graph.stages.len(), 1);
}

#[test]
fn stages_read_only_earlier_stages() {
    let inner = node(3, PlanKind::CoalescePartitions { fetch: None }, 1, vec![leaf(4, 2)]);
    let middle = node(2, PlanKind::SortPreservingMerge, 1, vec![inner]);
    let graph = JobGraph::try_new(&node(1, PlanKind::Other, 1, vec![middle]), None).unwrap();
    assert_eq!(graph.stages.len(), 3);
    for (s, stage) in graph.stages.iter().enumerate() {
        assert!(stage.inputs.iter().all(|i| i.stage < s));
    }
}

#[test]
fn plans_that_cannot_be_cut_are_refused() {
    let auto = PlanKind::HashJoin { mode: PartitionMode::Auto, join_type: JoinType::Inner };
    let e = JobGraph::try_new(&node(1, auto, 1, vec![leaf(2, 1), leaf(3, 1)]), None).unwrap_err();
    assert_eq!(e, JobGraphError::AutoPartitionMode);
    assert_eq!(e.message(), "unresolved auto partition mode in hash join");
    let ordered = PlanKind::Repartition {
        partitioning: PlanPartitioning::RoundRobinBatch(2),
        preserve_order: true,
    };
    let e = JobGraph::try_new(&node(1, ordered, 2, vec![leaf(2, 1)]), None).unwrap_err();
    assert_eq!(e, JobGraphError::OrderPreservingRepartition);
    assert_eq!(
        e.message(),
        "repartition is order-preserving and would result in incorrect results in distributed execution"
    );
    let e = JobGraph::try_new(&node(1, PlanKind::LoopJoin, 1, vec![leaf(2, 1)]), None).unwrap_err();
    assert_eq!(e, JobGraphError::InputCount { expected: 2, actual: 1 });
    assert_eq!(e.message(), "expected 2 inputs but found 1");
}

fn flow_schema() -> Arc<Schema> {
    Arc::new(Schema::new(vec![
        Field::new(MARKER_FIELD_NAME, DataType::Binary, true),
        Field::new(RETRACTED_FIELD_NAME, DataType::Boolean, false),
        Field::new("k", DataType::Int64, true),
    ]))
}

fn data_batch(ks: &[i64]) -> RecordBatch {
    RecordBatch::try_new(
        flow_schema(),
        vec![
            Arc::new(BinaryArray::from(vec![None::<&[u8]>; ks.len()])) as ArrayRef,
            Arc::new(BooleanArray::from(vec![false; ks.len()])) as ArrayRef,
            Arc::new(Int64Array::from(ks.to_vec())) as ArrayRef,
        ],
    )
    .unwrap()
}

fn marker_batch() -> RecordBatch {
    RecordBatch::try_new(
        flow_schema(),
        vec![
            Arc::new(BinaryArray::from(vec![Some(&b"checkpoint 7"[..])])) as ArrayRef,
            Arc::new(BooleanArray::from(vec![false])) as ArrayRef,
            new_null_array(&DataType::Int64, 1),
        ],
    )
    .unwrap()
}

fn hash_partitioner(channels: usize) -> BatchPartitioner {
    let key: Arc<dyn PhysicalExpr> = Arc::new(Column::new("k", 2));
    open_partitioner(Partitioning::Hash(vec![key], channels), 0, 1).unwrap()
}

fn shuffle(
    sinks: &mut ShuffleSinks,
    partitioner: &mut BatchPartitioner,
    batches: Vec<RecordBatch>,
    recorders: &mut [Vec<RecordBatch>],
) {
    for columns in batches {
        for (channel, piece) in route(sinks, partitioner, Batch { columns }).unwrap() {
            recorders[channel].push(piece.columns);
            sinks.wrote(channel, WriteOutcome::Written);
        }
        assert!(sinks.active());
    }
}

fn keys(batch: &RecordBatch) -> Vec<i64> {
    batch.column(2).as_primitive::<Int64Type>().values().to_vec()
}

fn is_marker(batch: &RecordBatch) -> bool {
    is_marker_batch(&Batch { columns: batch.clone() })
}

#[test]
fn marker_batches_broadcast_to_all_partitions_data_hash_routed() {
    let n = 3;
    let mut recorders: Vec<Vec<RecordBatch>> = vec![vec![]; n];
    let mut sinks = ShuffleSinks::new(n);
    let mut partitioner = hash_partitioner(n);
    let ks: Vec<i64> = (0..30).collect();
    let batches = vec![data_batch(&ks), marker_batch()];
    shuffle(&mut sinks, &mut partitioner, batches, &mut recorders);

    for (p, rec) in recorders.iter().enumerate() {
        let markers = rec.iter().filter(|b| is_marker(b)).count();
        assert_eq!(markers, 1, "partition {p} must get exactly one broadcast marker");
    }
    let total_data: usize = recorders
        .iter()
        .flat_map(|r| r.iter().filter(|b| !is_marker(b)).map(|b| b.num_rows()).collect::<Vec<_>>())
        .sum();
    assert_eq!(total_data, 30, "all data rows hash-routed exactly once");
}

#[test]
fn each_row_reaches_one_channel() {
    let n = 3;
    let mut recorders: Vec<Vec<RecordBatch>> = vec![vec![]; n];
    let mut sinks = ShuffleSinks::new(n);
    let mut partitioner = hash_partitioner(n);
    let batches = vec![data_batch(&[5, 1, 4, 1, 9, 2]), data_batch(&[1, 5])];
    shuffle(&mut sinks, &mut partitioner, batches, &mut recorders);
    let mut seen: Vec<i64> = recorders.iter().flatten().flat_map(keys).collect();
    seen.sort();
    assert_eq!(seen, vec![1, 1, 1, 2, 4, 5, 5, 9]);
    for k in [1, 5] {
        let holders = recorders.iter().filter(|r| r.iter().any(|b| keys(b).contains(&k)));
        assert_eq!(holders.count(), 1, "equal keys go to one channel");
    }
}

#[test]
fn batches_go_in_turn_from_the_place_of_the_input() {
    let sinks = ShuffleSinks::new(4);
    let mut partitioner = open_partitioner(Partitioning::RoundRobinBatch(4), 1, 2).unwrap();
    let mut channels = vec![];
    for k in 0..5 {
        let batch = Batch { columns: data_batch(&[k]) };
        let writes = route(&sinks, &mut partitioner, batch).unwrap();
        assert_eq!(writes.len(), 1);
        assert_eq!(keys(&writes[0].1.columns), vec![k]);
        channels.push(writes[0].0);
    }
    assert_eq!(channels, vec![2, 3, 0, 1, 2]);
}

#[test]
fn pieces_for_open_channels_are_written() {
    let mut sinks = ShuffleSinks::new(3);
    sinks.wrote(1, WriteOutcome::Closed);
    let pieces = (0..3).map(|c| (c, Batch { columns: data_batch(&[c as i64]) })).collect();
    let writes = open_pieces(&sinks, pieces);
    let found: Vec<_> = writes.iter().map(|(c, b)| (*c, keys(&b.columns))).collect();
    assert_eq!(found, vec![(0, vec![0]), (2, vec![2])]);
}

#[test]
fn rows_for_closed_channels_are_dropped() {
    let mut sinks = ShuffleSinks::new(2);
    let mut partitioner = open_partitioner(Partitioning::RoundRobinBatch(2), 0, 1).unwrap();
    sinks.wrote(0, WriteOutcome::Closed);
    let mut write = |columns: RecordBatch| route(&sinks, &mut partitioner, Batch { columns }).unwrap();
    assert!(write(data_batch(&[1])).is_empty());
    let second = write(data_batch(&[2, 3]));
    assert_eq!(second.len(), 1);
    assert_eq!(second[0].0, 1);
    assert_eq!(keys(&second[0].1.columns), vec![2, 3]);
    let markers = write(marker_batch());
    assert_eq!(markers.len(), 1);
    assert_eq!(markers[0].0, 1);
    assert_eq!(markers[0].1.columns, marker_batch());
}

#[test]
fn partitioners_that_cannot_be_are_refused() {
    assert!(matches!(
        open_partitioner(Partitioning::RoundRobinBatch(0), 0, 1),
        Err(PartitionerError::ChannelCount)
    ));
    assert!(matches!(
        open_partitioner(Partitioning::RoundRobinBatch(usize::MAX), 2, 3),
        Err(PartitionerError::ChannelCount)
    ));
    assert!(matches!(
        open_partitioner(Partitioning::UnknownPartitioning(2), 0, 1),
        Err(PartitionerError::Unsupported(_))
    ));
    let sinks = ShuffleSinks::new(2);
    let key: Arc<dyn PhysicalExpr> = Arc::new(Column::new("z", 9));
    let hash = Partitioning::Hash(vec![key], 2);
    let mut partitioner = open_partitioner(hash, 0, 1).unwrap();
    let batch = Batch { columns: data_batch(&[1]) };
    assert!(matches!(route(&sinks, &mut partitioner, batch), Err(RouteError::Failed(_))));
}

#[test]
fn closed_channels_get_nothing_more() {
    let mut sinks = ShuffleSinks::new(2);
    sinks.wrote(0, WriteOutcome::Closed);
    assert_eq!(sinks.targets(true, &[false, false]), vec![1]);
    assert_eq!(sinks.targets(false, &[true, true]), vec![1]);
    assert_eq!(sinks.remaining(), vec![1]);
    assert!(sinks.active());
    sinks.wrote(1, WriteOutcome::Closed);
    assert!(!sinks.active());
    assert!(sinks.remaining().is_empty());
}

#[test]
fn shuffle_partitioning_is_normalized() {
    let none = ShufflePartitioning::Hash { keys: vec![], channels: 2 };
    let exec = ShuffleWriteExec::new(vec![2, 3], none);
    assert!(matches!(
        exec.plan_partition(0).unwrap(),
        ShufflePartitioning::RoundRobinBatch(2)
    ));
    let mismatch = exec.plan_partition(1).unwrap_err();
    assert_eq!(
        mismatch.message(),
        "partition count mismatch: shuffle partitioning has 2 partitions, but 3 locations were provided"
    );
    let missing = exec.plan_partition(2).unwrap_err();
    assert_eq!(missing.message(), "write locations for partition 2 not found");
    let e = exec.with_new_children(0).unwrap_err();
    assert_eq!(e, ShuffleError::ChildCount);
    assert_eq!(e.message(), "ShuffleWriteExec should have one child");

    let keys = vec![
        ShuffleKey { id: 1, unknown_column: true },
        ShuffleKey { id: 2, unknown_column: false },
    ];
    let exec = ShuffleWriteExec::new(vec![1], ShufflePartitioning::Hash { keys, channels: 1 });
    match exec.plan_partition(0).unwrap() {
        ShufflePartitioning::Hash { keys, channels } => {
            assert_eq!(channels, 1);
            assert_eq!(keys.len(), 1);
            assert_eq!(keys[0].id, 2);
        }
        other => panic!("unexpected {other:?}"),
    }
}

#[test]
fn ticket_denotes_its_channel() {
    let key = TaskStreamKey { job_id: JobId(1), stage: 2, partition: 3, attempt: 4, channel: 5 };
    let ticket = TaskStreamTicket::new(&key);
    assert_eq!(
        ticket,
        TaskStreamTicket { job_id: 1, stage: 2, partition: 3, attempt: 4, channel: 5 }
    );
    assert_eq!(ticket.key(), key);
}

#[test]
fn small_batches_are_put_together_where_asked() {
    assert_eq!(coalesce_target(0), None);
    assert_eq!(coalesce_target(1), None);
    assert_eq!(coalesce_target(8192), Some(8192));
}
