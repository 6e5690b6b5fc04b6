//! The cached view of a mirror, and when it is ready to be read.
use mirror_v3::cache::{CacheState, MirrorStatus};
use mirror_v3::record::{Header, Record, TimestampType};

fn rec(topic: &str, partition: i32, offset: u64, key: &str, value: Option<&[u8]>) -> Record {
    Record {
        topic: topic.into(),
        partition,
        source_offset: offset,
        timestamp_ms: Some(1_700_000_000_000),
        timestamp_type: TimestampType::CreateTime,
        key: Some(key.as_bytes().to_vec()),
        value: value.map(|v| v.to_vec()),
        headers: Vec::<Header>::new(),
    }
}

#[test]
fn is_mirror_ready_reports_per_mirror_status() {
    // Per-mirror gate is the notifier's suppression knob:
    // it lets one mirror start emitting webhooks while another is
    // still warming up against its bootstrap_hwm. Verify the three
    // states the notifier cares about: unknown name, registered
    // but pre-hwm, registered and caught up.
    let mut s = CacheState::new();
    assert!(
        !s.is_mirror_ready("unknown"),
        "unknown name must report false so an uninstrumented \
         notifier can't accidentally fire"
    );
    s.register_mirror("warming", 3, None, false);
    assert!(!s.is_mirror_ready("warming"), "hwm 3, no records yet");
    s.apply_record("warming", &rec("warming", 0, 0, "k0", Some(b"v")));
    s.apply_record("warming", &rec("warming", 0, 1, "k1", Some(b"v")));
    assert!(!s.is_mirror_ready("warming"), "still 1 offset short of hwm");
    s.apply_record("warming", &rec("warming", 0, 2, "k2", Some(b"v")));
    assert!(s.is_mirror_ready("warming"), "offset hwm-1 flips the slot");
    // Independent slot stays at its own state.
    s.register_mirror("empty", 0, None, false);
    assert!(
        s.is_mirror_ready("empty"),
        "hwm 0 = immediately ready, independent of other mirrors"
    );
}

#[test]
fn empty_state_starts_not_ready_with_no_mirrors_registered() {
    // With zero registered mirrors there's nothing to wait for;
    // the global ready flag stays `false` (no producers means
    // there's no useful cache yet).
    let s = CacheState::new();
    assert!(!s.is_ready());
    assert!(s.main_mirror().is_none());
    assert!(s.snapshot_keys_for("missing").is_none());
    assert!(s.snapshot_offsets_for("missing").is_none());
}

#[test]
fn register_empty_topic_marks_mirror_ready_immediately() {
    let mut s = CacheState::new();
    s.register_mirror("ops", 0, None, false);
    assert!(s.is_ready(), "empty topic = hwm 0 = immediately ready");
}

#[test]
fn readiness_flips_only_after_bootstrap_hwm_reached() {
    let mut s = CacheState::new();
    s.register_mirror("ops", 3, None, false); // need offsets 0..=2
    assert!(!s.is_ready());
    s.apply_record("ops", &rec("ops", 0, 0, "k0", Some(b"v0")));
    assert!(!s.is_ready());
    s.apply_record("ops", &rec("ops", 0, 1, "k1", Some(b"v1")));
    assert!(!s.is_ready());
    s.apply_record("ops", &rec("ops", 0, 2, "k2", Some(b"v2")));
    assert!(s.is_ready(), "after offset hwm-1 the mirror must be ready");
}

#[test]
fn multiple_mirrors_all_must_catch_up() {
    let mut s = CacheState::new();
    s.register_mirror("a", 2, None, false);
    s.register_mirror("b", 1, None, false);
    assert!(!s.is_ready());
    s.apply_record("a", &rec("topic-a", 0, 0, "ka0", Some(b"va0")));
    s.apply_record("a", &rec("topic-a", 0, 1, "ka1", Some(b"va1")));
    assert!(!s.is_ready(), "a is caught up but b is not");
    s.apply_record("b", &rec("topic-b", 0, 0, "kb0", Some(b"vb0")));
    assert!(s.is_ready());
}

#[test]
fn tombstone_removes_key() {
    let mut s = CacheState::new();
    s.register_mirror("ops", 2, None, false);
    s.apply_record("ops", &rec("ops", 0, 0, "user-1", Some(br#"{"v":1}"#)));
    assert_eq!(
        s.get_value_for("ops", "user-1").as_deref(),
        Some(br#"{"v":1}"#.as_ref())
    );
    s.apply_record("ops", &rec("ops", 0, 1, "user-1", None)); // tombstone
    assert!(s.get_value_for("ops", "user-1").is_none());
}

#[test]
fn rewind_does_not_overwrite_or_remove() {
    let mut s = CacheState::new();
    s.register_mirror("ops", 1, None, false);
    s.apply_record("ops", &rec("ops", 0, 0, "k", Some(b"first")));
    s.apply_record("ops", &rec("ops", 0, 1, "k", Some(b"second")));
    // Now feed a record with an older offset (simulated rewind).
    s.apply_record("ops", &rec("ops", 0, 0, "k", Some(b"first-again")));
    assert_eq!(
        s.get_value_for("ops", "k").as_deref(),
        Some(b"second".as_ref()),
        "rewind must not overwrite the latest value"
    );
    // Equal-offset record is also rejected.
    s.apply_record("ops", &rec("ops", 0, 1, "k", None));
    assert_eq!(
        s.get_value_for("ops", "k").as_deref(),
        Some(b"second".as_ref()),
        "equal-offset replay must not tombstone"
    );
}

#[test]
fn snapshot_offsets_is_deterministic_order() {
    let mut s = CacheState::new();
    s.register_mirror("m", 10, None, false);
    s.apply_record("m", &rec("z-topic", 1, 5, "k", Some(b"v")));
    s.apply_record("m", &rec("a-topic", 3, 4, "k2", Some(b"v")));
    s.apply_record("m", &rec("a-topic", 1, 6, "k3", Some(b"v")));
    let snap = s.snapshot_offsets_for("m").unwrap();
    let order: Vec<_> = snap
        .iter()
        .map(|tpo| (tpo.topic.clone(), tpo.partition))
        .collect();
    assert_eq!(
        order,
        vec![
            ("a-topic".to_string(), 1),
            ("a-topic".to_string(), 3),
            ("z-topic".to_string(), 1),
        ]
    );
}

#[test]
fn snapshot_keys_in_insertion_order() {
    let mut s = CacheState::new();
    s.register_mirror("m", 0, None, false);
    s.apply_record("m", &rec("t", 0, 0, "c", Some(b"v")));
    s.apply_record("m", &rec("t", 0, 1, "a", Some(b"v")));
    s.apply_record("m", &rec("t", 0, 2, "b", Some(b"v")));
    assert_eq!(s.snapshot_keys_for("m").unwrap(), vec!["c", "a", "b"]);
}

#[test]
fn overwrite_keeps_position_in_listing() {
    let mut s = CacheState::new();
    s.register_mirror("m", 0, None, false);
    s.apply_record("m", &rec("t", 0, 0, "x", Some(b"v0")));
    s.apply_record("m", &rec("t", 0, 1, "y", Some(b"v1")));
    s.apply_record("m", &rec("t", 0, 2, "x", Some(b"v0-updated")));
    assert_eq!(s.snapshot_keys_for("m").unwrap(), vec!["x", "y"]);
    assert_eq!(
        s.snapshot_values_for("m").unwrap(),
        vec![b"v0-updated".to_vec(), b"v1".to_vec()]
    );
}

#[test]
fn tombstone_preserves_order_of_remaining() {
    let mut s = CacheState::new();
    s.register_mirror("m", 0, None, false);
    s.apply_record("m", &rec("t", 0, 0, "a", Some(b"va")));
    s.apply_record("m", &rec("t", 0, 1, "b", Some(b"vb")));
    s.apply_record("m", &rec("t", 0, 2, "c", Some(b"vc")));
    s.apply_record("m", &rec("t", 0, 3, "b", None)); // tombstone middle
    assert_eq!(s.snapshot_keys_for("m").unwrap(), vec!["a", "c"]);
}

#[test]
fn per_mirror_views_are_independent() {
    // Two mirrors writing through their own slots: a key in
    // mirror A must not show up in mirror B's view, and an
    // unregistered mirror name returns None across the board.
    let mut s = CacheState::new();
    s.register_mirror("a", 0, None, false);
    s.register_mirror("b", 0, None, false);
    s.apply_record("a", &rec("topic-a", 0, 0, "k-a", Some(b"va")));
    s.apply_record("b", &rec("topic-b", 0, 0, "k-b", Some(b"vb")));
    assert_eq!(s.get_value_for("a", "k-a").as_deref(), Some(b"va".as_ref()));
    assert!(s.get_value_for("a", "k-b").is_none());
    assert_eq!(s.get_value_for("b", "k-b").as_deref(), Some(b"vb".as_ref()));
    assert!(s.get_value_for("missing", "anything").is_none());
    assert!(s.snapshot_keys_for("missing").is_none());
}

#[test]
fn register_mirror_tracks_main_mirror_singleton() {
    let mut s = CacheState::new();
    assert!(s.main_mirror().is_none());
    s.register_mirror("ops", 0, None, false);
    assert!(
        s.main_mirror().is_none(),
        "is_main=false does not assign the singleton"
    );
    s.register_mirror("users", 0, None, true);
    assert_eq!(s.main_mirror().as_deref(), Some("users"));
}

#[test]
fn fresh_deploy_suppresses_below_bootstrap_hwm() {
    let mut s = CacheState::new();
    s.register_mirror("m", 10, None, false);
    for off in 0..10 {
        assert!(
            s.is_record_suppressed("m", off),
            "fresh deploy must suppress offset {off} (< hwm 10)"
        );
    }
    assert!(
        !s.is_record_suppressed("m", 10),
        "offset == hwm must NOT be suppressed (first live record)"
    );
    assert!(!s.is_record_suppressed("m", 50));
}

#[test]
fn returning_deploy_suppresses_below_committed_offset() {
    let mut s = CacheState::new();
    s.register_mirror("m", 10, Some(5), false);
    for off in 0..5 {
        assert!(
            s.is_record_suppressed("m", off),
            "returning deploy must suppress offset {off} below committed 5"
        );
    }
    for off in 5..15 {
        assert!(
            !s.is_record_suppressed("m", off),
            "offset {off} must fire (>= committed 5)"
        );
    }
}

#[test]
fn suppression_is_settled_at_registration() {
    let mut s = CacheState::new();
    s.register_mirror("m", 10, Some(5), false);
    let boundary = |s: &CacheState, at: u64| {
        assert!(s.is_record_suppressed("m", at - 1));
        assert!(!s.is_record_suppressed("m", at));
    };
    s.apply_record("m", &rec("t", 0, 7, "a", Some(b"1")));
    boundary(&s, 5);
    s.replay("m", &vec![rec("t", 0, 8, "a", Some(b"2")), rec("t", 0, 9, "b", Some(b"3"))]);
    boundary(&s, 5);
    s.set_broker_end_offset("m", 400);
    s.mark_source_unassigned("m");
    s.mark_source_assigned("m");
    s.mark_destination_lagging("m", "bucket", 3);
    s.clear_destination_lagging("m");
    s.register_mirror("other", 99, None, true);
    boundary(&s, 5);
    s.register_mirror("m", 20, None, false);
    boundary(&s, 20);
    assert!(!s.is_record_suppressed("never-registered", 0));
}

#[test]
fn unknown_mirror_is_not_suppressed() {
    let s = CacheState::new();
    assert!(
        !s.is_record_suppressed("never-registered", 0),
        "unknown mirror returns false (no info, don't suppress)"
    );
}

#[test]
fn empty_topic_no_committed_suppresses_nothing() {
    let mut s = CacheState::new();
    s.register_mirror("m", 0, None, false);
    assert!(!s.is_record_suppressed("m", 0));
    assert!(!s.is_record_suppressed("m", 99));
}

#[test]
fn empty_topic_starts_ready() {
    let mut s = CacheState::new();
    s.register_mirror_with_topic("m", 0, None, false, "t", 0);
    assert_eq!(s.status_for("m"), Some(MirrorStatus::Ready));
    assert!(s.is_mirror_ready("m"));
    assert!(s.is_ready(), "aggregate is true once every mirror is Ready");
}

#[test]
fn non_empty_topic_starts_warming_and_flips_on_catch_up() {
    let mut s = CacheState::new();
    s.register_mirror_with_topic("m", 5, None, false, "t", 0);
    assert_eq!(s.status_for("m"), Some(MirrorStatus::Warming));
    assert!(!s.is_mirror_ready("m"));

    // Offset 3 leaves the next one at 4, below the end of 5.
    for off in 0..4 {
        s.apply_record("m", &rec("t", 0, off, &format!("k{off}"), Some(b"v")));
    }
    assert_eq!(s.status_for("m"), Some(MirrorStatus::Warming));

    // Offset 4 reaches it.
    s.apply_record("m", &rec("t", 0, 4, "k4", Some(b"v")));
    assert_eq!(s.status_for("m"), Some(MirrorStatus::Ready));
    assert!(s.is_mirror_ready("m"));
}

#[test]
fn poller_pushes_lag_then_recovers() {
    // After warming, the broker advances. With tolerance=0, even
    // one offset of lag flips the slot to LagBehindSource. A
    // follow-up apply_record at the new end offset recovers to
    // Ready.
    let mut s = CacheState::new();
    s.register_mirror_with_topic("m", 1, None, false, "t", 0);
    s.apply_record("m", &rec("t", 0, 0, "k0", Some(b"v"))); // catch up; last_applied = 1
    assert_eq!(s.status_for("m"), Some(MirrorStatus::Ready));

    s.set_broker_end_offset("m", 5);
    assert_eq!(
        s.status_for("m"),
        Some(MirrorStatus::LagBehindSource { lag: 4 })
    );
    assert!(!s.is_mirror_ready("m"));
    assert!(!s.is_ready());

    s.apply_record("m", &rec("t", 0, 1, "k1", Some(b"v")));
    s.apply_record("m", &rec("t", 0, 2, "k2", Some(b"v")));
    s.apply_record("m", &rec("t", 0, 3, "k3", Some(b"v")));
    s.apply_record("m", &rec("t", 0, 4, "k4", Some(b"v")));
    assert_eq!(s.status_for("m"), Some(MirrorStatus::Ready));
    assert!(s.is_mirror_ready("m"));
}

#[test]
fn source_unassigned_overrides_other_states() {
    let mut s = CacheState::new();
    s.register_mirror_with_topic("m", 0, None, false, "user-states", 7);
    assert_eq!(s.status_for("m"), Some(MirrorStatus::Ready));

    s.mark_source_unassigned("m");
    match s.status_for("m") {
        Some(MirrorStatus::SourceUnassigned { topic, partition }) => {
            assert_eq!(topic, "user-states");
            assert_eq!(partition, 7);
        }
        other => panic!("expected SourceUnassigned, got {other:?}"),
    }
    assert!(!s.is_mirror_ready("m"));

    // Source comes back; recompute returns to Ready (empty
    // topic, no lag).
    s.mark_source_assigned("m");
    assert_eq!(s.status_for("m"), Some(MirrorStatus::Ready));
}

#[test]
fn destination_lagging_is_set_and_cleared_externally() {
    let mut s = CacheState::new();
    s.register_mirror_with_topic("m", 0, None, false, "t", 0);
    assert_eq!(s.status_for("m"), Some(MirrorStatus::Ready));

    s.mark_destination_lagging("m", "users-gcs", 42);
    match s.status_for("m") {
        Some(MirrorStatus::DestinationLagging { name, lag }) => {
            assert_eq!(name, "users-gcs");
            assert_eq!(lag, 42);
        }
        other => panic!("expected DestinationLagging, got {other:?}"),
    }
    assert!(!s.is_mirror_ready("m"));

    // An incoming apply_record must NOT clobber DestinationLagging.
    s.apply_record("m", &rec("t", 0, 0, "k0", Some(b"v")));
    assert!(matches!(
        s.status_for("m"),
        Some(MirrorStatus::DestinationLagging { .. })
    ));

    // Clearing returns to source-side state.
    s.clear_destination_lagging("m");
    assert_eq!(s.status_for("m"), Some(MirrorStatus::Ready));
}

#[test]
fn aggregate_is_ready_ands_every_slot() {
    let mut s = CacheState::new();
    s.register_mirror_with_topic("ready", 0, None, false, "t1", 0);
    s.register_mirror_with_topic("warming", 5, None, false, "t2", 0);
    assert!(
        !s.is_ready(),
        "aggregate is false while one slot is Warming"
    );
    for off in 0..5 {
        s.apply_record("warming", &rec("t2", 0, off, &format!("k{off}"), Some(b"v")));
    }
    assert!(s.is_ready(), "aggregate flips to true when both Ready");
}

#[test]
fn aggregate_is_not_ready_when_no_mirrors_are_registered() {
    let s = CacheState::new();
    assert!(
        !s.is_ready(),
        "aggregate is false when nothing has been registered"
    );
}

#[test]
fn lag_tolerance_lets_a_small_lag_stay_ready() {
    let mut s = CacheState::new().with_readiness_lag_tolerance(10);
    s.register_mirror_with_topic("m", 1, None, false, "t", 0);
    s.apply_record("m", &rec("t", 0, 0, "k0", Some(b"v"))); // Ready, lag=0
    s.set_broker_end_offset("m", 8); // lag=7 <= 10
    assert_eq!(s.status_for("m"), Some(MirrorStatus::Ready));
    s.set_broker_end_offset("m", 100); // lag=99 > 10
    assert_eq!(
        s.status_for("m"),
        Some(MirrorStatus::LagBehindSource { lag: 99 })
    );
}

#[test]
fn warming_comes_before_a_lagging_destination() {
    let mut s = CacheState::new();
    s.register_mirror_with_topic("m", 2, None, false, "t", 0);
    s.mark_destination_lagging("m", "d", 9);
    assert_eq!(s.status_for("m"), Some(MirrorStatus::Warming));
    s.apply_record("m", &rec("t", 0, 1, "k", Some(b"v")));
    assert_eq!(
        s.status_for("m"),
        Some(MirrorStatus::DestinationLagging {
            name: "d".into(),
            lag: 9
        })
    );
    s.set_broker_end_offset("m", 7);
    assert!(matches!(
        s.status_for("m"),
        Some(MirrorStatus::DestinationLagging { .. })
    ));
    s.clear_destination_lagging("m");
    assert_eq!(
        s.status_for("m"),
        Some(MirrorStatus::LagBehindSource { lag: 5 })
    );
    s.mark_source_unassigned("m");
    assert!(matches!(
        s.status_for("m"),
        Some(MirrorStatus::SourceUnassigned { .. })
    ));
}

#[test]
fn a_record_applied_twice_counts_once() {
    let mut s = CacheState::new();
    s.register_mirror("m", 0, None, false);
    let r = rec("t", 4, 8, "k", Some(b"v"));
    s.apply_record("m", &r);
    s.apply_record("m", &r);
    assert_eq!(s.snapshot_keys_for("m").unwrap(), vec!["k"]);
    assert_eq!(s.get_offset_for("m", "t", 4), Some(8));
    assert_eq!(s.get_offset_for("m", "t", 5), None);
    let offsets = s.snapshot_offsets_for("m").unwrap();
    assert_eq!(offsets.len(), 1);
    assert_eq!(offsets[0].offset, 8);
}

#[test]
fn keys_that_are_no_text_are_not_listed() {
    let mut s = CacheState::new();
    s.register_mirror("m", 1, None, false);
    let mut r = rec("t", 0, 0, "k", Some(b"v"));
    r.key = Some(vec![0xff]);
    s.apply_record("m", &r);
    assert_eq!(s.snapshot_keys_for("m").unwrap(), Vec::<String>::new());
    assert_eq!(s.get_offset_for("m", "t", 0), Some(0));
    assert!(!s.is_ready(), "a record without a usable key is not applied");
}

#[test]
fn records_of_unknown_mirrors_are_dropped() {
    let mut s = CacheState::new();
    s.apply_record("nobody", &rec("t", 0, 0, "k", Some(b"v")));
    assert!(s.get_value_for("nobody", "k").is_none());
    assert!(s.status_snapshot().is_empty());
}

#[test]
fn the_status_of_every_mirror_is_listed() {
    let mut s = CacheState::new();
    s.register_mirror("a", 0, None, false);
    s.register_mirror("b", 3, None, false);
    let mut names: Vec<(String, bool)> = s
        .status_snapshot()
        .into_iter()
        .map(|m| (m.name, m.status == MirrorStatus::Ready))
        .collect();
    names.sort();
    assert_eq!(
        names,
        vec![("a".to_string(), true), ("b".to_string(), false)]
    );
}

#[test]
fn a_restarted_mirror_shows_what_it_showed() {
    let mut live = CacheState::new();
    live.register_mirror("m", 3, None, false);
    let stored = vec![
        rec("t", 0, 0, "a", Some(b"1")),
        rec("t", 0, 1, "b", Some(b"2")),
        rec("t", 0, 2, "a", None),
    ];
    for r in &stored {
        live.apply_record("m", r);
    }
    let mut again = CacheState::new();
    again.register_mirror("m", 3, None, false);
    again.replay("m", &stored);
    assert_eq!(again.snapshot_keys_for("m"), live.snapshot_keys_for("m"));
    assert_eq!(again.snapshot_keys_for("m").unwrap(), vec!["b"]);
    assert!(again.is_ready());
}
