//! How far a mirror is done, and what the source is told of it.
use mirror_v3::acks::{
    commit_interval_from_env, readiness_lag_tolerance_from_env, readiness_poll_interval_from_env,
    AckTracker, CommitLoop, DestAckSlot, FlushAckShim, WriteAckShim,
};
use mirror_v3::mirror::{AckSink, FlushObserver, WriteObserver};

#[test]
fn notify_tracker_commit_offset_reflects_note_through() {
    let mut tracker = AckTracker::new(true, vec![]);
    assert_eq!(tracker.commit_offset(), 0);
    tracker.note_through(5);
    assert_eq!(tracker.commit_offset(), 5);
    tracker.note_through(7);
    assert_eq!(tracker.commit_offset(), 7);
}

#[test]
fn notify_tracker_ignores_regressions() {
    let mut tracker = AckTracker::new(true, vec![]);
    tracker.note_through(7);
    tracker.note_through(3);
    assert_eq!(
        tracker.commit_offset(),
        7,
        "a lower value cannot move the slot back"
    );
}

#[test]
fn non_notify_tracker_uses_max_destination_ack() {
    let a = DestAckSlot::new("a".into(), true);
    let b = DestAckSlot::new("b".into(), true);
    let mut tracker = AckTracker::new(false, vec![a, b]);
    assert_eq!(tracker.commit_offset(), 0);
    tracker.note_destination(0, 10);
    assert_eq!(tracker.commit_offset(), 10);
    tracker.note_destination(1, 5);
    assert_eq!(tracker.commit_offset(), 10, "max wins");
    tracker.note_destination(1, 20);
    assert_eq!(tracker.commit_offset(), 20);
}

#[test]
fn non_notify_tracker_ignores_ack_sink_note_through() {
    let dest = DestAckSlot::new("d".into(), true);
    let mut tracker = AckTracker::new(false, vec![dest]);
    tracker.note_through(42);
    assert_eq!(tracker.commit_offset(), 0);
    tracker.note_destination(0, 7);
    assert_eq!(tracker.commit_offset(), 7);
}

#[test]
fn flush_ack_shim_advances_dest_to_to_plus_one() {
    let dest = DestAckSlot::new("fs".into(), true);
    let mut shim = FlushAckShim { dest };
    shim.on_flushed(0, 9);
    assert_eq!(shim.dest.flushed_through, 10);
    shim.on_flushed(10, 19);
    assert_eq!(shim.dest.flushed_through, 20);
}

#[test]
fn write_ack_shim_advances_dest_to_offset_plus_one() {
    let dest = DestAckSlot::new("kafka".into(), true);
    let mut shim = WriteAckShim { dest };
    for off in 0..5 {
        shim.on_written(off);
    }
    assert_eq!(shim.dest.flushed_through, 5);
}

#[test]
fn tracker_with_notifier_ignores_its_destinations() {
    let mut tracker = AckTracker::new(true, vec![DestAckSlot::new("d".into(), true)]);
    tracker.note_destination(0, 9);
    assert_eq!(tracker.destinations[0].flushed_through, 9);
    assert_eq!(tracker.commit_offset(), 0);
}

#[test]
fn commits_are_due_only_when_the_offset_moved() {
    let mut commits = CommitLoop::new();
    assert_eq!(commits.due(0), None);
    assert_eq!(commits.due(5), Some(5));
    commits.note(5, false);
    assert_eq!(commits.due(5), Some(5), "a failed commit is tried again");
    commits.note(5, true);
    assert_eq!(commits.due(5), None);
    assert_eq!(commits.due(6), Some(6));
}

#[test]
fn intervals_come_from_settings() {
    assert_eq!(commit_interval_from_env(None), 5000);
    assert_eq!(commit_interval_from_env(Some("250")), 250);
    assert_eq!(commit_interval_from_env(Some("0")), 0);
    assert_eq!(commit_interval_from_env(Some("x")), 5000);
    assert_eq!(readiness_poll_interval_from_env(None), 2000);
    assert_eq!(readiness_poll_interval_from_env(Some("+7")), 7);
    assert_eq!(readiness_poll_interval_from_env(Some("0")), 0);
    assert_eq!(readiness_lag_tolerance_from_env(None), 0);
    assert_eq!(readiness_lag_tolerance_from_env(Some("12")), 12);
    assert_eq!(readiness_lag_tolerance_from_env(Some("-1")), 0);
}
