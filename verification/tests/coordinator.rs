use vajra::coordinator::{CoordinatorError, EpochAck, EpochCoordinator};

fn ack_with_offset(tp: &str, off: i64) -> EpochAck {
    let mut a = EpochAck::default();
    a.offsets.insert(tp.to_string(), off);
    a
}

#[test]
fn completes_only_when_all_tasks_ack_and_merges_offsets() {
    let mut c = EpochCoordinator::new(&[1u64, 2, 3], 4).unwrap();
    let e = c.trigger().unwrap();
    assert_eq!(e, 0);
    assert!(c.ack(e, 1, ack_with_offset("t:0", 10)).unwrap().is_none());
    assert!(c.ack(e, 2, ack_with_offset("t:1", 20)).unwrap().is_none());
    let gc = c.ack(e, 3, ack_with_offset("t:2", 30)).unwrap().unwrap();
    assert_eq!(gc.epoch, 0);
    assert_eq!(gc.offsets.get("t:0"), Some(&10));
    assert_eq!(gc.offsets.get("t:1"), Some(&20));
    assert_eq!(gc.offsets.get("t:2"), Some(&30));
    assert_eq!(c.last_committed(), Some(0));
    assert_eq!(c.in_flight_count(), 0);
}

#[test]
fn duplicate_ack_is_idempotent_and_does_not_complete_early() {
    let mut c = EpochCoordinator::new(&[1u64, 2], 4).unwrap();
    let e = c.trigger().unwrap();
    assert!(c.ack(e, 1, ack_with_offset("t:0", 5)).unwrap().is_none());
    assert!(c.ack(e, 1, ack_with_offset("t:0", 999)).unwrap().is_none());
    let gc = c.ack(e, 2, ack_with_offset("t:1", 7)).unwrap().unwrap();
    assert_eq!(gc.offsets.get("t:0"), Some(&5));
    assert_eq!(gc.offsets.get("t:1"), Some(&7));
}

#[test]
fn unknown_task_ack_errors() {
    let mut c = EpochCoordinator::new(&[1u64], 4).unwrap();
    let e = c.trigger().unwrap();
    assert!(c.ack(e, 99, EpochAck::default()).is_err());
}

#[test]
fn backpressure_caps_in_flight_epochs() {
    let mut c = EpochCoordinator::new(&[1u64], 2).unwrap();
    assert_eq!(c.trigger().unwrap(), 0);
    assert_eq!(c.trigger().unwrap(), 1);
    assert!(c.trigger().is_err());
    c.ack(0, 1, EpochAck::default()).unwrap().unwrap();
    assert_eq!(c.trigger().unwrap(), 2);
}

#[test]
fn stale_and_unknown_epoch_acks_are_ignored_not_errors() {
    let mut c = EpochCoordinator::new(&[1u64], 4).unwrap();
    let e = c.trigger().unwrap();
    c.ack(e, 1, EpochAck::default()).unwrap().unwrap();
    assert!(c.ack(0, 1, EpochAck::default()).unwrap().is_none());
    assert!(c.ack(42, 1, EpochAck::default()).unwrap().is_none());
}

#[test]
fn completing_later_epoch_subsumes_earlier_in_flight() {
    let mut c = EpochCoordinator::new(&[1u64, 2], 4).unwrap();
    let e0 = c.trigger().unwrap();
    let e1 = c.trigger().unwrap();
    assert_eq!((e0, e1), (0, 1));
    c.ack(0, 1, ack_with_offset("t:0", 100)).unwrap();
    assert!(c.ack(1, 1, ack_with_offset("t:0", 200)).unwrap().is_none());
    let gc = c.ack(1, 2, ack_with_offset("t:1", 200)).unwrap().unwrap();
    assert_eq!(gc.epoch, 1);
    assert_eq!(c.last_committed(), Some(1));
    assert_eq!(c.in_flight_count(), 0, "epoch 0 subsumed/dropped");
    assert!(c.ack(0, 2, ack_with_offset("t:1", 100)).unwrap().is_none());
    assert_eq!(c.last_committed(), Some(1), "no regression to epoch 0");
}

#[test]
fn recover_resumes_epoch_clock_after_committed() {
    let mut c = EpochCoordinator::new(&[1u64], 4).unwrap();
    c.recover(7);
    assert_eq!(c.last_committed(), Some(7));
    assert_eq!(c.trigger().unwrap(), 8, "next epoch continues after the committed one");
}

#[test]
fn aborted_epoch_is_forgotten() {
    let mut c = EpochCoordinator::new(&[1u64, 2], 4).unwrap();
    let e = c.trigger().unwrap();
    c.ack(e, 1, EpochAck::default()).unwrap();
    c.abort(e);
    assert_eq!(c.in_flight_count(), 0);
    assert!(c.ack(e, 2, EpochAck::default()).unwrap().is_none());
    assert_eq!(c.last_committed(), None);
    assert_eq!(c.trigger().unwrap(), 1);
}

#[test]
fn coordinator_errors_have_messages() {
    let none = EpochCoordinator::new(&[], 1).unwrap_err();
    assert!(matches!(none, CoordinatorError::NoExpectedTasks));
    assert_eq!(none.message(), "EpochCoordinator requires at least one expected task");
    let zero = EpochCoordinator::new(&[1], 0).unwrap_err();
    assert!(matches!(zero, CoordinatorError::ZeroMaxInFlight));
    assert_eq!(zero.message(), "EpochCoordinator requires max_in_flight >= 1");
    let mut c = EpochCoordinator::new(&[1], 1).unwrap();
    c.trigger().unwrap();
    assert_eq!(
        c.trigger().unwrap_err().message(),
        "EpochCoordinator: 1 epochs already in flight (max 1)"
    );
    assert_eq!(
        c.ack(0, 9, EpochAck::default()).unwrap_err().message(),
        "EpochCoordinator: ack from unknown task 9"
    );
}
