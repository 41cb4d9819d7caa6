use vajra::ids::{JobId, TaskKey, WorkerId};
use vajra::task_assigner::{
    placement_policy, PlacementPolicy, TaskAssigner, TaskAssignerOptions, TaskAssignment,
    TaskOutputKind, TaskPlacement, TaskRegion, TaskSet, TaskSetEntry, TaskSlotAssigner,
    TaskStreamAssignment,
};
use vajra::task_runner::{
    is_source_fusion, plan_failure, write_locations, ProjectionShape, TaskRunner,
};

fn three_workers() -> Vec<(WorkerId, Vec<usize>)> {
    vec![
        (WorkerId::from(1), vec![0, 1]),
        (WorkerId::from(2), vec![0, 1]),
        (WorkerId::from(3), vec![0, 1]),
    ]
}

fn drain(policy: PlacementPolicy) -> Vec<u64> {
    let mut a = TaskSlotAssigner::new(three_workers(), policy);
    (0..6).map(|_| u64::from(a.next().unwrap().0)).collect()
}

#[test]
fn fill_first_packs_one_worker_before_the_next() {
    assert_eq!(drain(PlacementPolicy::FillFirst), vec![1, 1, 2, 2, 3, 3]);
}

#[test]
fn even_spread_fans_out_across_workers() {
    assert_eq!(drain(PlacementPolicy::EvenSpread), vec![1, 2, 3, 1, 2, 3]);
}

#[test]
fn even_spread_prefers_the_worker_with_most_free_slots() {
    let slots = vec![
        (WorkerId::from(1), vec![0]),
        (WorkerId::from(2), vec![0, 1, 2]),
    ];
    let mut a = TaskSlotAssigner::new(slots, PlacementPolicy::EvenSpread);
    let seq: Vec<u64> = (0..4).map(|_| u64::from(a.next().unwrap().0)).collect();
    assert_eq!(seq, vec![2, 2, 1, 2]);
}

fn key(stage: usize, partition: usize) -> TaskKey {
    TaskKey { job_id: JobId(1), stage, partition, attempt: 0 }
}

fn region(keys: &[TaskKey], placement: TaskPlacement, output: TaskOutputKind) -> TaskRegion {
    TaskRegion {
        tasks: keys
            .iter()
            .map(|k| (placement, TaskSet { entries: vec![TaskSetEntry { key: *k, output }] }))
            .collect(),
    }
}

fn assigner(max: usize, slots: usize) -> TaskAssigner {
    TaskAssigner::new(TaskAssignerOptions {
        worker_max_count: max,
        worker_task_slots: slots,
        placement: PlacementPolicy::FillFirst,
    })
}

#[test]
fn regions_are_assigned_whole_or_not_at_all() {
    let mut a = assigner(1, 2);
    a.enqueue_tasks(region(&[key(0, 0), key(0, 1)], TaskPlacement::Worker, TaskOutputKind::Local));
    a.enqueue_tasks(region(&[key(1, 0)], TaskPlacement::Worker, TaskOutputKind::Local));
    assert!(a.assign_tasks().is_empty());
    assert_eq!(a.request_workers(), 1);
    assert_eq!(a.request_workers(), 0);
    a.activate_worker(WorkerId(7));
    let first = a.assign_tasks();
    assert_eq!(first.len(), 2);
    assert!(matches!(
        first[0].assignment,
        TaskAssignment::Worker { worker_id: WorkerId(7), slot: 1 }
    ));
    assert!(matches!(
        first[1].assignment,
        TaskAssignment::Worker { worker_id: WorkerId(7), slot: 0 }
    ));
    assert!(a.assign_tasks().is_empty());
    let mut tasks = a.find_worker_tasks(WorkerId(7));
    tasks.sort();
    assert_eq!(tasks, vec![key(0, 0), key(0, 1)]);
    assert!(a.unassign_task(&key(0, 0)).is_some());
    assert!(a.unassign_task(&key(5, 5)).is_none());
    assert_eq!(a.assign_tasks().len(), 1);
    assert!(a.get(&key(1, 0)).is_some());
}

#[test]
fn driver_tasks_need_no_worker() {
    let mut a = assigner(0, 1);
    a.enqueue_tasks(region(&[key(0, 0)], TaskPlacement::Driver, TaskOutputKind::Local));
    let placed = a.assign_tasks();
    assert_eq!(placed.len(), 1);
    assert!(matches!(placed[0].assignment, TaskAssignment::Driver));
    a.track_streams(&placed);
    let holders = a.untrack_local_streams(JobId(1), None);
    assert_eq!(holders.len(), 1);
    assert!(matches!(holders[0], TaskStreamAssignment::Driver));
    assert!(a.untrack_local_streams(JobId(1), None).is_empty());
}

#[test]
fn excluded_tasks_leave_the_queue() {
    let mut a = assigner(1, 4);
    a.enqueue_tasks(region(&[key(0, 0), key(0, 1)], TaskPlacement::Worker, TaskOutputKind::Local));
    a.enqueue_tasks(region(&[key(1, 0)], TaskPlacement::Worker, TaskOutputKind::Local));
    a.exclude_task(&key(0, 1));
    a.activate_worker(WorkerId(1));
    let placed = a.assign_tasks();
    assert!(placed.iter().all(|p| !p.set.contains(&key(0, 1))));
    assert!(placed.iter().any(|p| p.set.contains(&key(1, 0))));
}

#[test]
fn worker_with_tasks_or_streams_is_not_idle() {
    let mut a = assigner(1, 1);
    a.activate_worker(WorkerId(1));
    assert!(a.is_worker_idle(WorkerId(1)));
    a.enqueue_tasks(region(&[key(2, 0)], TaskPlacement::Worker, TaskOutputKind::Local));
    let placed = a.assign_tasks();
    assert!(!a.is_worker_idle(WorkerId(1)));
    a.track_streams(&placed);
    a.unassign_task(&key(2, 0));
    assert!(!a.is_worker_idle(WorkerId(1)));
    assert_eq!(a.untrack_local_streams(JobId(1), Some(3)).len(), 0);
    let holders = a.untrack_local_streams(JobId(1), Some(2));
    assert!(matches!(
        holders[0],
        TaskStreamAssignment::Worker { worker_id: WorkerId(1) }
    ));
    assert!(a.is_worker_idle(WorkerId(1)));
    a.deactivate_worker(WorkerId(1));
    assert!(!a.is_worker_idle(WorkerId(1)));
}

#[test]
fn remote_streams_are_held_by_the_driver() {
    let mut a = assigner(1, 1);
    a.activate_worker(WorkerId(1));
    a.enqueue_tasks(region(&[key(0, 0)], TaskPlacement::Worker, TaskOutputKind::Remote));
    let placed = a.assign_tasks();
    a.track_streams(&placed);
    assert!(a.untrack_remote_streams(JobId(1), None));
    assert!(!a.untrack_remote_streams(JobId(1), None));
}

#[test]
fn failed_worker_can_be_requested_again() {
    let mut a = assigner(1, 1);
    a.enqueue_tasks(region(&[key(0, 0)], TaskPlacement::Worker, TaskOutputKind::Local));
    assert_eq!(a.request_workers(), 1);
    a.track_worker_failed_to_start();
    assert_eq!(a.request_workers(), 1);
}

#[test]
fn placement_follows_the_settings() {
    assert_eq!(placement_policy(None, None), PlacementPolicy::FillFirst);
    assert_eq!(placement_policy(Some("1"), None), PlacementPolicy::EvenSpread);
    assert_eq!(placement_policy(None, Some("1")), PlacementPolicy::EvenSpread);
    assert_eq!(placement_policy(Some("0"), None), PlacementPolicy::FillFirst);
}

#[test]
fn stopped_task_has_no_signal_left() {
    let mut runner: TaskRunner<&str> = TaskRunner::new();
    runner.run_task(key(0, 0), "stop");
    assert_eq!(runner.stop_task(&key(0, 1)), None);
    assert_eq!(runner.stop_task(&key(0, 0)), Some("stop"));
    assert_eq!(runner.stop_task(&key(0, 0)), None);
}

#[test]
fn plan_failure_names_the_error() {
    assert_eq!(plan_failure("boom"), "failed to execute plan: boom");
}

#[test]
fn only_a_bare_parse_over_a_source_is_fused() {
    let shape = |name: &str, parses: Option<bool>, is_struct: bool| ProjectionShape {
        functions: vec![Some(name.to_string())],
        source_parses: parses,
        is_struct,
    };
    assert!(is_source_fusion(true, &shape("from_json", Some(false), true)));
    assert!(!is_source_fusion(false, &shape("from_json", Some(false), true)));
    assert!(!is_source_fusion(true, &shape("upper", Some(false), true)));
    assert!(!is_source_fusion(true, &shape("from_json", Some(true), true)));
    assert!(!is_source_fusion(true, &shape("from_json", None, true)));
    assert!(!is_source_fusion(true, &shape("from_json", Some(false), false)));
    let two = ProjectionShape {
        functions: vec![Some("from_json".to_string()), None],
        source_parses: Some(false),
        is_struct: true,
    };
    assert!(!is_source_fusion(true, &two));
}

#[test]
fn a_task_writes_to_the_locations_of_its_partition() {
    let all = write_locations(3, 1, vec!['a', 'b']).unwrap();
    assert_eq!(all, vec![vec![], vec!['a', 'b'], vec![]]);
    assert!(write_locations(3, 3, vec!['a']).is_none());
}
