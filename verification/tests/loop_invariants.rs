//! What the mirror loop keeps, over scripted sources and sinks.
use mirror_v3::error::{MirrorError, SinkError, SourceError};
use mirror_v3::mirror::{run_mirror, run_mirror_with_notifier, RunEnd, Sink, Tick};
use mirror_v3::mock::{rec, MockNotifier, MockSink, MockSource, MockSourceEvent};
use mirror_v3::record::Record;
use mirror_v3::run_loop::heartbeat_interval_from_env;
use mirror_v3::supervisor::NotifyOnlySink;
use mirror_v3::testing::{BlanketMockSink, Call};

/// Ticks that only ever poll, more than any script here needs.
fn polls() -> Vec<Tick> {
    vec![Tick::Poll; 20]
}

fn outcome(end: RunEnd) -> Result<(), MirrorError> {
    match end {
        RunEnd::Finished(outcome) => outcome,
        other => panic!("the run did not finish: {other:?}"),
    }
}

fn offsets(writes: &[Record]) -> Vec<u64> {
    writes.iter().map(|r| r.source_offset).collect()
}

/// The offsets of the writes that a sink was asked for.
fn written(sink: &BlanketMockSink) -> Vec<u64> {
    sink.calls()
        .iter()
        .filter_map(|c| match c {
            Call::Write { source_offset } => Some(*source_offset),
            _ => None,
        })
        .collect()
}

#[test]
fn seeks_source_to_destination_position_on_startup() {
    let mut source = MockSource::new(vec![MockSourceEvent::Error("stop after seek".into())]);
    let mut sink = MockSink::starting_at(42).with_position_program(vec![42]);
    let _ = run_mirror(&mut source, &mut sink, &polls());
    assert_eq!(source.seeks, vec![42]);
}

#[test]
fn processes_records_in_order() {
    let mut source = MockSource::new(vec![
        MockSourceEvent::Record(rec(10)),
        MockSourceEvent::Record(rec(11)),
        MockSourceEvent::Record(rec(12)),
        MockSourceEvent::Error("end of test".into()),
    ]);
    let mut sink = MockSink::starting_at(10);
    let result = outcome(run_mirror(&mut source, &mut sink, &polls()).end);
    assert!(
        matches!(result, Err(MirrorError::Source(_))),
        "got: {result:?}"
    );
    assert_eq!(offsets(&sink.writes), vec![10, 11, 12]);
}

#[test]
fn errors_on_source_offset_gap_in_append_mode() {
    let mut source = MockSource::new(vec![
        MockSourceEvent::Record(rec(10)),
        MockSourceEvent::Record(rec(12)),
    ]);
    let mut sink = MockSink::starting_at(10);
    match outcome(run_mirror(&mut source, &mut sink, &polls()).end) {
        Err(MirrorError::SourceGapAboveExpected { expected, got }) => {
            assert_eq!(expected, 11);
            assert_eq!(got, 12);
        }
        other => panic!("expected SourceGapAboveExpected, got {other:?}"),
    }
    assert_eq!(offsets(&sink.writes), vec![10]);
}

#[test]
fn errors_on_source_going_backwards() {
    let mut source = MockSource::new(vec![
        MockSourceEvent::Record(rec(10)),
        MockSourceEvent::Record(rec(9)),
    ]);
    let mut sink = MockSink::starting_at(10).with_allows_compacted_source(true);
    match outcome(run_mirror(&mut source, &mut sink, &polls()).end) {
        Err(MirrorError::SourceWentBackwards { expected, got }) => {
            assert_eq!(expected, 11);
            assert_eq!(got, 9);
        }
        other => panic!("expected SourceWentBackwards, got {other:?}"),
    }
}

#[test]
fn compaction_log_accepts_gap_from_compact_only_topic() {
    // A compacted topic can still report zero as its earliest offset and
    // then deliver a later record first.
    let mut source = MockSource::new(vec![
        MockSourceEvent::Record(rec(461)),
        MockSourceEvent::Error("stop".into()),
    ])
    .with_low_watermark(0);
    let mut sink = BlanketMockSink::builder()
        .with_next_expected_offset(0)
        .with_allows_compacted_source(true);
    let result = outcome(run_mirror(&mut source, &mut sink, &polls()).end);
    assert!(
        matches!(result, Err(MirrorError::Source(_))),
        "got: {result:?}"
    );
    assert_eq!(written(&sink), vec![461]);
    assert!(!sink
        .calls()
        .iter()
        .any(|c| matches!(c, Call::AlignToSourceLowWatermark { .. })));
}

#[test]
fn compaction_log_accepts_repeated_gaps_mid_stream() {
    let mut source = MockSource::new(vec![
        MockSourceEvent::Record(rec(461)),
        MockSourceEvent::Record(rec(466)),
        MockSourceEvent::Record(rec(470)),
        MockSourceEvent::Error("stop".into()),
    ])
    .with_low_watermark(0);
    let mut sink = BlanketMockSink::builder()
        .with_next_expected_offset(0)
        .with_allows_compacted_source(true);
    let result = outcome(run_mirror(&mut source, &mut sink, &polls()).end);
    assert!(
        matches!(result, Err(MirrorError::Source(_))),
        "got: {result:?}"
    );
    assert_eq!(written(&sink), vec![461, 466, 470]);
}

#[test]
fn compaction_log_gaps_pass_a_sink_that_refuses_older_offsets() {
    // The sink takes forward gaps and moves past each record; anything
    // below where it stands it would refuse.
    let mut source = MockSource::new(vec![
        MockSourceEvent::Record(rec(461)),
        MockSourceEvent::Idle,
        MockSourceEvent::Record(rec(466)),
        MockSourceEvent::Record(rec(470)),
        MockSourceEvent::Error("stop".into()),
    ])
    .with_low_watermark(0);
    let mut sink = NotifyOnlySink::new();
    let mut notifier = MockNotifier::new();
    let report = run_mirror_with_notifier(&mut source, &mut sink, &mut notifier, &polls());
    let result = outcome(report.end);
    assert!(
        matches!(result, Err(MirrorError::Source(_))),
        "got: {result:?}"
    );
    assert_eq!(notifier.offsets, vec![461, 466, 470]);
    assert_eq!(sink.position, 471);
    assert_eq!(
        sink.write(rec(470)),
        Err(SinkError::UnexpectedPosition {
            expected: 471,
            actual: 470
        })
    );
}

#[test]
fn what_is_written_is_what_was_polled() {
    let mut source = MockSource::new(vec![
        MockSourceEvent::Record(rec(10)),
        MockSourceEvent::Record(rec(11)),
    ]);
    let mut sink = MockSink::starting_at(10);
    let _ = run_mirror(&mut source, &mut sink, &polls());
    assert_eq!(sink.writes, vec![rec(10), rec(11)]);
}

#[test]
fn errors_on_destination_drift_during_idle() {
    // After offset 10 an idle poll finds the destination at 15: somebody
    // else wrote to it.
    let mut source = MockSource::new(vec![
        MockSourceEvent::Record(rec(10)),
        MockSourceEvent::Idle,
        MockSourceEvent::Hang,
    ]);
    let mut sink = MockSink::starting_at(10).with_position_program(vec![10, 15]);
    match outcome(run_mirror(&mut source, &mut sink, &polls()).end) {
        Err(MirrorError::DestinationDrift { expected, actual }) => {
            assert_eq!(expected, 11);
            assert_eq!(actual, 15);
        }
        other => panic!("expected DestinationDrift, got {other:?}"),
    }
}

#[test]
fn propagates_sink_write_error() {
    let mut source = MockSource::new(vec![MockSourceEvent::Record(rec(10))]);
    let mut sink = MockSink::starting_at(10).with_write_error(SinkError::UnexpectedPosition {
        expected: 10,
        actual: 11,
    });
    match outcome(run_mirror(&mut source, &mut sink, &polls()).end) {
        Err(MirrorError::Sink(SinkError::UnexpectedPosition { expected, actual })) => {
            assert_eq!(expected, 10);
            assert_eq!(actual, 11);
        }
        other => panic!("expected sink UnexpectedPosition, got {other:?}"),
    }
}

#[test]
fn propagates_source_poll_error() {
    let mut source = MockSource::new(vec![MockSourceEvent::Error("kafka down".into())]);
    let mut sink = MockSink::starting_at(0);
    let result = outcome(run_mirror(&mut source, &mut sink, &polls()).end);
    assert!(matches!(result, Err(MirrorError::Source(_))));
    assert_eq!(
        result.unwrap_err().message(),
        "source transport: kafka down"
    );
}

#[test]
fn empty_destination_starts_at_zero_and_processes_first_record() {
    let mut source = MockSource::new(vec![
        MockSourceEvent::Record(rec(0)),
        MockSourceEvent::Error("stop".into()),
    ]);
    let mut sink = MockSink::starting_at(0);
    let _ = run_mirror(&mut source, &mut sink, &polls());
    assert_eq!(sink.writes.len(), 1);
    assert_eq!(sink.writes[0].source_offset, 0);
}

#[test]
fn compacted_source_with_compaction_log_advances_to_low_watermark() {
    let mut source = MockSource::new(vec![
        MockSourceEvent::Record(rec(461)),
        MockSourceEvent::Error("stop".into()),
    ])
    .with_low_watermark(461);
    let mut sink = MockSink::starting_at(461).with_allows_compacted_source(true);
    let result = outcome(run_mirror(&mut source, &mut sink, &polls()).end);
    assert!(
        matches!(result, Err(MirrorError::Source(_))),
        "got: {result:?}"
    );
    assert_eq!(offsets(&sink.writes), vec![461]);
}

#[test]
fn a_trimmed_source_moves_an_empty_compacting_sink() {
    let mut source = MockSource::new(vec![
        MockSourceEvent::Record(rec(461)),
        MockSourceEvent::Error("stop".into()),
    ])
    .with_low_watermark(461);
    let mut sink = MockSink::starting_at(0).with_allows_compacted_source(true);
    let _ = run_mirror(&mut source, &mut sink, &polls());
    assert_eq!(source.seeks, vec![461]);
    assert_eq!(offsets(&sink.writes), vec![461]);
}

#[test]
fn compacted_source_without_compaction_fails_with_helpful_error() {
    let mut source =
        MockSource::new(vec![MockSourceEvent::Record(rec(461))]).with_low_watermark(461);
    let mut sink = MockSink::starting_at(0);
    match outcome(run_mirror(&mut source, &mut sink, &polls()).end) {
        Err(MirrorError::SourceCompactedBelowExpected {
            start,
            low_watermark,
            low_watermark_minus_one,
        }) => {
            assert_eq!(start, 0);
            assert_eq!(low_watermark, 461);
            assert_eq!(low_watermark_minus_one, 460);
        }
        other => panic!("expected SourceCompactedBelowExpected, got {other:?}"),
    }
    assert_eq!(source.events.len(), 1, "the source was never polled");
}

#[test]
fn non_compacted_source_uses_sink_start_offset_unchanged() {
    let mut source = MockSource::new(vec![
        MockSourceEvent::Record(rec(7)),
        MockSourceEvent::Error("stop".into()),
    ])
    .with_low_watermark(0);
    let mut sink = MockSink::starting_at(7);
    let result = outcome(run_mirror(&mut source, &mut sink, &polls()).end);
    assert!(
        matches!(result, Err(MirrorError::Source(_))),
        "got: {result:?}"
    );
    assert_eq!(offsets(&sink.writes), vec![7]);
}

#[test]
fn graceful_shutdown_calls_flush_and_returns_ok() {
    let mut source = MockSource::new(vec![MockSourceEvent::Hang]);
    let mut sink = BlanketMockSink::builder();
    let result = outcome(run_mirror(&mut source, &mut sink, &vec![Tick::Shutdown]).end);
    assert!(matches!(result, Ok(())), "expected Ok, got {result:?}");
    let flushes = sink.calls().iter().filter(|c| **c == Call::Flush).count();
    assert_eq!(flushes, 1, "flush must be called exactly once");
}

#[test]
fn heartbeats_leave_the_mirror_waiting() {
    let mut source = MockSource::new(vec![MockSourceEvent::Record(rec(0))]);
    let mut sink = MockSink::starting_at(0);
    let ticks = vec![Tick::Heartbeat, Tick::Poll, Tick::Heartbeat];
    let report = run_mirror(&mut source, &mut sink, &ticks);
    assert!(matches!(report.end, RunEnd::Waiting));
    assert_eq!(report.ticks_used, 3);
    assert_eq!(offsets(&sink.writes), vec![0]);
}

#[test]
fn a_source_that_hangs_is_not_idle() {
    // The sink would drift if it were asked for its position again.
    let mut source = MockSource::new(vec![
        MockSourceEvent::Record(rec(10)),
        MockSourceEvent::Hang,
        MockSourceEvent::Record(rec(11)),
    ]);
    let mut sink = MockSink::starting_at(10).with_position_program(vec![10, 15]);
    let report = run_mirror(&mut source, &mut sink, &polls());
    assert!(matches!(report.end, RunEnd::Waiting));
    assert_eq!(offsets(&sink.writes), vec![10]);
    assert_eq!(source.events.len(), 2, "the script stops where it hangs");

    let mut source = MockSource::new(vec![]);
    let mut sink = MockSink::starting_at(10).with_position_program(vec![10, 15]);
    let ticks = vec![Tick::Poll, Tick::Poll, Tick::Shutdown];
    let result = outcome(run_mirror(&mut source, &mut sink, &ticks).end);
    assert!(matches!(result, Ok(())), "got: {result:?}");
}

#[test]
fn a_failed_flush_ends_the_run() {
    let mut source = MockSource::new(vec![]);
    let mut sink = BlanketMockSink::builder()
        .with_flush_results(vec![Err(SinkError::Transport("disk full".into()))]);
    let result = outcome(run_mirror(&mut source, &mut sink, &vec![Tick::Shutdown]).end);
    assert_eq!(
        result.unwrap_err().message(),
        "sink transport: disk full"
    );
}

#[test]
fn the_heartbeat_interval_comes_from_a_setting() {
    assert_eq!(heartbeat_interval_from_env(None), 30);
    assert_eq!(heartbeat_interval_from_env(Some("5")), 5);
    assert_eq!(heartbeat_interval_from_env(Some("0")), 0);
    assert_eq!(heartbeat_interval_from_env(Some("soon")), 30);
}

#[test]
fn mirror_errors_have_a_text() {
    assert_eq!(
        MirrorError::SourceWentBackwards {
            expected: 11,
            got: 9
        }
        .message(),
        "source delivered offset 9, expected at least 11 (went backwards)"
    );
    assert_eq!(
        MirrorError::SourceGapAboveExpected {
            expected: 11,
            got: 12
        }
        .message(),
        "source delivered offset 12, expected 11 (gap above expected)"
    );
    assert_eq!(
        MirrorError::DestinationDrift {
            expected: 11,
            actual: 15
        }
        .message(),
        "destination drift while idle: expected next-offset 11, found 15"
    );
    assert_eq!(
        MirrorError::SourceCompactedBelowExpected {
            start: 0,
            low_watermark: 461,
            low_watermark_minus_one: 460
        }
        .message(),
        "source has been compacted past start offset: sink wants 0, broker's earliest is 461. \
         Either set `compaction: log` on this mirror (destination becomes a key→latest-value \
         snapshot, missing earlier offsets are harmless), or seed the destination from a backup \
         that covers up to offset 460."
    );
    assert_eq!(
        SinkError::UnexpectedPosition {
            expected: 3,
            actual: 4
        }
        .message(),
        "destination advanced: expected next-offset 3, found 4"
    );
    assert_eq!(SourceError::Transport("x".into()).message(), "source transport: x");
}
