//! One stream of records to several sinks.
use mirror_v3::cache::{CacheBinding, CacheState};
use mirror_v3::error::SinkError;
use mirror_v3::mirror::Sink;
use mirror_v3::mock::{rec, MockSink};
use mirror_v3::record::{Record, TimestampType};
use mirror_v3::tee::{route_flushes, FlushRoute, MinFlushCoordinator, TeeSink};
use mirror_v3::testing::{BlanketMockSink, Call};

fn names(names: &[&str]) -> Vec<String> {
    names.iter().map(|n| n.to_string()).collect()
}

fn writes(sink: &MockSink) -> Vec<u64> {
    sink.writes.iter().map(|r| r.source_offset).collect()
}

fn pair(a: MockSink, b: MockSink) -> TeeSink<MockSink> {
    TeeSink::open(names(&["a", "b"]), vec![a, b], None).unwrap()
}

#[test]
fn open_snapshots_inner_heads_and_reports_min() {
    let mut tee = pair(MockSink::starting_at(8), MockSink::starting_at(3));
    assert_eq!(
        tee.heads(),
        vec![("a".to_string(), 8), ("b".to_string(), 3)]
    );
    let head = tee.next_expected_offset().unwrap();
    assert_eq!(head, 3, "min of inner heads");
    assert_eq!(writes(&tee.inners[0]), Vec::<u64>::new());
    assert_eq!(writes(&tee.inners[1]), Vec::<u64>::new());
}

#[test]
fn write_feeds_only_lagging_sinks_until_heads_converge() {
    let mut tee = pair(MockSink::starting_at(8), MockSink::starting_at(3));
    for offset in 3..=10 {
        tee.write(rec(offset)).unwrap();
    }
    assert_eq!(
        writes(&tee.inners[0]),
        vec![8, 9, 10],
        "sink a only sees records at/after its starting head"
    );
    assert_eq!(
        writes(&tee.inners[1]),
        vec![3, 4, 5, 6, 7, 8, 9, 10],
        "sink b sees everything from its starting head"
    );
}

#[test]
fn first_inner_write_error_propagates_with_sink_name() {
    let mut tee = pair(MockSink::starting_at(0), MockSink::starting_at(0));
    tee.write(rec(0)).unwrap();
    tee.write(rec(1)).unwrap();
    tee.inners[1].write_error = Some(SinkError::Transport(
        "scripted failure at offset 2".to_string(),
    ));
    let err = tee.write(rec(2)).expect_err("should fail");
    let msg = err.message();
    assert!(msg.contains("inner sink b"), "got: {msg}");
    assert!(msg.contains("scripted failure"), "got: {msg}");
    assert_eq!(
        tee.heads(),
        vec![("a".to_string(), 3), ("b".to_string(), 2)],
        "the sink that took the record moved on"
    );
}

#[test]
fn flush_fans_out_concurrently_and_surfaces_first_error() {
    let sinks = vec![BlanketMockSink::builder(), BlanketMockSink::builder()];
    let mut tee = TeeSink::open(names(&["a", "b"]), sinks, None).unwrap();
    tee.flush().unwrap();
    for inner in &tee.inners {
        assert_eq!(
            inner.calls().iter().filter(|c| **c == Call::Flush).count(),
            1
        );
    }
}

#[test]
fn a_failed_flush_does_not_keep_the_others_from_flushing() {
    let sinks = vec![
        BlanketMockSink::builder()
            .with_flush_results(vec![Err(SinkError::Transport("disk full".into()))]),
        BlanketMockSink::builder()
            .with_flush_results(vec![Err(SinkError::Transport("later".into()))]),
    ];
    let mut tee = TeeSink::open(names(&["a", "b"]), sinks, None).unwrap();
    let msg = tee.flush().unwrap_err().message();
    assert!(
        msg.contains("inner sink a") && msg.contains("disk full"),
        "got: {msg}"
    );
    assert_eq!(tee.inners[1].calls().last(), Some(&Call::Flush));
}

#[test]
fn cache_binding_applied_exactly_once_per_record() {
    let mut state = CacheState::new();
    state.register_mirror("m", 0, None, false);
    let binding = CacheBinding {
        state,
        mirror_name: "m".into(),
    };
    let mut tee = TeeSink::open(
        names(&["a", "b"]),
        vec![MockSink::starting_at(0), MockSink::starting_at(0)],
        Some(binding),
    )
    .unwrap();
    let r = Record {
        topic: "t".into(),
        partition: 0,
        source_offset: 0,
        timestamp_ms: Some(1),
        timestamp_type: TimestampType::CreateTime,
        key: Some(b"k0".to_vec()),
        value: Some(b"v0".to_vec()),
        headers: vec![],
    };
    tee.write(r).unwrap();
    let state = &tee.cache.as_ref().unwrap().state;
    assert_eq!(
        state.snapshot_keys_for("m").unwrap(),
        vec!["k0".to_string()],
        "exactly one key materialised from one record"
    );
}

#[test]
fn allows_compacted_source_is_and_over_inners() {
    let a = MockSink::starting_at(0).with_allows_compacted_source(true);
    let b = MockSink::starting_at(0).with_allows_compacted_source(false);
    assert!(
        !pair(a, b).allows_compacted_source(),
        "mixed inner capabilities => false"
    );
    let a2 = MockSink::starting_at(0).with_allows_compacted_source(true);
    let b2 = MockSink::starting_at(0).with_allows_compacted_source(true);
    assert!(
        pair(a2, b2).allows_compacted_source(),
        "all inners compaction-capable => true"
    );
}

#[test]
fn align_to_source_low_watermark_proxies_to_every_inner_and_bumps_heads() {
    let a = MockSink::starting_at(0).with_allows_compacted_source(true);
    let b = MockSink::starting_at(0).with_allows_compacted_source(true);
    let mut tee = pair(a, b);
    tee.align_to_source_low_watermark(42).unwrap();
    assert_eq!(tee.inners[0].running_position, 42);
    assert_eq!(tee.inners[1].running_position, 42);
    let head = tee.next_expected_offset().unwrap();
    assert_eq!(head, 42, "after align, min(heads) = low_watermark");
}

#[test]
fn length_one_tee_forwards_observer_unchanged() {
    assert_eq!(route_flushes(&vec![true]), FlushRoute::Direct(0));
}

#[test]
fn multi_sink_tee_fires_only_when_min_advances() {
    assert_eq!(
        route_flushes(&vec![true, true]),
        FlushRoute::Merged(vec![0, 1])
    );
    let mut merged = MinFlushCoordinator::new(2);
    assert_eq!(merged.note(0, 9), None, "outer must wait for the laggard");
    assert_eq!(merged.note(1, 4), Some((0, 4)));
    assert_eq!(merged.note(1, 9), Some((4, 9)));
    assert_eq!(merged.note(0, 19), None, "no advance, no fire");
}

#[test]
fn multi_sink_tee_does_not_re_fire_for_already_seen_watermark() {
    let mut merged = MinFlushCoordinator::new(2);
    assert_eq!(merged.note(0, 5), None);
    assert_eq!(merged.note(1, 5), Some((0, 5)));
    assert_eq!(merged.note(0, 5), None);
}

#[test]
fn resume_floor_lowers_reported_start_and_tracks_replay() {
    let mut tee = TeeSink::open(names(&["a"]), vec![MockSink::starting_at(5)], None).unwrap();
    tee.set_resume_floor(2);
    assert_eq!(
        tee.next_expected_offset().unwrap(),
        2,
        "floor lowers the reported start below the inner head"
    );
    for offset in 2..=4 {
        tee.write(rec(offset)).unwrap();
        assert_eq!(tee.next_expected_offset().unwrap(), offset + 1);
    }
    assert_eq!(
        writes(&tee.inners[0]),
        Vec::<u64>::new(),
        "replay must not re-write to the destination"
    );
    for offset in 5..=7 {
        tee.write(rec(offset)).unwrap();
    }
    assert_eq!(writes(&tee.inners[0]), vec![5, 6, 7]);
    assert_eq!(tee.next_expected_offset().unwrap(), 8);
}

#[test]
fn resume_floor_at_or_above_inner_min_is_a_noop() {
    let mut tee = TeeSink::open(names(&["a"]), vec![MockSink::starting_at(3)], None).unwrap();
    tee.set_resume_floor(9);
    assert_eq!(
        tee.next_expected_offset().unwrap(),
        3,
        "the cursor never raises the tee above the inner minimum"
    );
}

#[test]
fn flush_observer_ignores_sinks_that_never_flush() {
    assert_eq!(route_flushes(&vec![true, false]), FlushRoute::Direct(0));
    assert_eq!(route_flushes(&vec![false, true]), FlushRoute::Direct(1));
    assert_eq!(route_flushes(&vec![false, false]), FlushRoute::Nowhere);
    assert_eq!(
        route_flushes(&vec![true, false, true]),
        FlushRoute::Merged(vec![0, 2])
    );
}

#[test]
fn a_tee_needs_a_sink() {
    let r = TeeSink::<MockSink>::open(vec![], vec![], None);
    match r {
        Err(SinkError::Transport(m)) => {
            assert_eq!(m, "TeeSink requires at least one inner sink")
        }
        _ => panic!("a tee over nothing"),
    }
}

#[test]
fn aligning_raises_the_resume_floor() {
    let sink = MockSink::starting_at(0).with_allows_compacted_source(true);
    let mut tee = TeeSink::from_inners_for_test(names(&["a"]), vec![sink], vec![0], None);
    tee.set_resume_floor(2);
    tee.align_to_source_low_watermark(42).unwrap();
    assert_eq!(tee.next_expected_offset(), Ok(42));
}

#[test]
fn every_sink_behind_gets_an_equal_record() {
    let mut tee = pair(MockSink::starting_at(3), MockSink::starting_at(3));
    tee.write(rec(3)).unwrap();
    assert_eq!(tee.inners[0].writes, vec![rec(3)]);
    assert_eq!(tee.inners[1].writes, vec![rec(3)]);
}

#[test]
fn opening_fails_with_the_first_sink_that_cannot_answer() {
    let fine = BlanketMockSink::builder().with_next_expected_offset(4);
    let mute = BlanketMockSink::builder().with_next_expected_offset_sequence(vec![]);
    match TeeSink::open(names(&["a", "b"]), vec![fine, mute], None) {
        Err(SinkError::Transport(m)) => assert!(m.contains("exhausted"), "got: {m}"),
        _ => panic!("a tee over a sink that cannot answer"),
    }
}
