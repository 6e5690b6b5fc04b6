//! Scripted sinks: what they answer, record and report.
use mirror_v3::error::{MirrorError, SinkError};
use mirror_v3::mirror::{run_mirror, AckSink, RunEnd, Sink, Source, Tick, WriteObserver};
use mirror_v3::mock::{rec, MockSink, MockSource, MockSourceEvent, WriteLog};
use mirror_v3::supervisor::NotifyOnlySink;
use mirror_v3::testing::{BlanketMockSink, Call};

/// Ticks that only ever poll, more than any script here needs.
fn polls() -> Vec<Tick> {
    vec![Tick::Poll; 20]
}

fn outcome(end: RunEnd) -> Result<(), MirrorError> {
    match end {
        RunEnd::Finished(outcome) => outcome,
        other => panic!("the run did not finish: {other:?}"),
    }
}

#[test]
fn palette_encodes_source_went_backwards() {
    let mut sink = BlanketMockSink::builder().with_next_expected_offset(5);
    let mut source = MockSource::new(vec![
        MockSourceEvent::Record(rec(5)),
        MockSourceEvent::Record(rec(3)),
    ]);
    match outcome(run_mirror(&mut source, &mut sink, &polls()).end) {
        Err(MirrorError::SourceWentBackwards { expected, got }) => {
            assert_eq!((expected, got), (6, 3));
        }
        other => panic!("expected SourceWentBackwards, got {other:?}"),
    }
}

#[test]
fn palette_encodes_destination_drift_via_sequence() {
    let mut sink = BlanketMockSink::builder().with_next_expected_offset_sequence(vec![10, 15]);
    let mut source = MockSource::new(vec![
        MockSourceEvent::Record(rec(10)),
        MockSourceEvent::Idle,
        MockSourceEvent::Hang,
    ]);
    match outcome(run_mirror(&mut source, &mut sink, &polls()).end) {
        Err(MirrorError::DestinationDrift { expected, actual }) => {
            assert_eq!((expected, actual), (11, 15));
        }
        other => panic!("expected DestinationDrift, got {other:?}"),
    }
}

#[test]
fn palette_encodes_per_record_sink_decision() {
    // The fifth write is refused, whatever it holds.
    let mut sink = BlanketMockSink::builder()
        .with_next_expected_offset(0)
        .with_write_results(vec![
            Ok(()),
            Ok(()),
            Ok(()),
            Ok(()),
            Err(SinkError::UnexpectedPosition {
                expected: 4,
                actual: 4,
            }),
        ]);
    let mut source = MockSource::new(vec![
        MockSourceEvent::Record(rec(0)),
        MockSourceEvent::Record(rec(1)),
        MockSourceEvent::Record(rec(2)),
        MockSourceEvent::Record(rec(3)),
        MockSourceEvent::Record(rec(4)),
    ]);
    match outcome(run_mirror(&mut source, &mut sink, &polls()).end) {
        Err(MirrorError::Sink(SinkError::UnexpectedPosition { expected, actual })) => {
            assert_eq!((expected, actual), (4, 4));
        }
        other => panic!("expected sink UnexpectedPosition on 5th write, got {other:?}"),
    }
}

#[test]
fn palette_records_call_order_for_post_hoc_assertion() {
    let mut sink = BlanketMockSink::builder().with_next_expected_offset(0);
    let mut source = MockSource::new(vec![
        MockSourceEvent::Record(rec(0)),
        MockSourceEvent::Record(rec(1)),
        MockSourceEvent::Hang,
    ]);
    let _ = run_mirror(&mut source, &mut sink, &vec![Tick::Poll, Tick::Shutdown]);
    assert_eq!(
        sink.calls(),
        vec![
            Call::NextExpectedOffset,
            Call::AllowsCompactedSource,
            Call::Write { source_offset: 0 },
            Call::Flush,
        ]
    );
    let fresh = BlanketMockSink::builder();
    assert_eq!(fresh.calls(), Vec::<Call>::new());
}

#[test]
fn the_sink_is_asked_again_about_a_trimmed_source_and_each_gap() {
    let mut sink = BlanketMockSink::builder().with_allows_compacted_source(true);
    let mut source = MockSource::new(vec![
        MockSourceEvent::Record(rec(5)),
        MockSourceEvent::Record(rec(9)),
    ])
    .with_low_watermark(5);
    let _ = run_mirror(&mut source, &mut sink, &vec![Tick::Poll, Tick::Poll]);
    assert_eq!(
        sink.calls(),
        vec![
            Call::NextExpectedOffset,
            Call::AllowsCompactedSource,
            Call::AllowsCompactedSource,
            Call::AlignToSourceLowWatermark { low_watermark: 5 },
            Call::Write { source_offset: 5 },
            Call::AllowsCompactedSource,
            Call::Write { source_offset: 9 },
        ]
    );
}

#[test]
fn defaults_return_ok_zero_and_record_calls() {
    let mut s = BlanketMockSink::builder();
    assert_eq!(s.next_expected_offset().unwrap(), 0);
    s.write(rec(0)).unwrap();
    s.flush().unwrap();
    assert!(!s.allows_compacted_source());
    s.align_to_source_low_watermark(42).unwrap();
    assert_eq!(
        s.calls(),
        vec![
            Call::NextExpectedOffset,
            Call::Write { source_offset: 0 },
            Call::Flush,
            Call::AllowsCompactedSource,
            Call::AlignToSourceLowWatermark { low_watermark: 42 },
        ]
    );
}

#[test]
fn next_expected_sequence_advances_per_call() {
    let mut s = BlanketMockSink::builder().with_next_expected_offset_sequence(vec![10, 20, 30]);
    assert_eq!(s.next_expected_offset().unwrap(), 10);
    assert_eq!(s.next_expected_offset().unwrap(), 20);
    assert_eq!(s.next_expected_offset().unwrap(), 30);
    match s.next_expected_offset() {
        Err(SinkError::Transport(msg)) => assert!(msg.contains("exhausted")),
        other => panic!("expected exhaustion error, got {other:?}"),
    }
}

#[test]
fn closure_can_capture_mutable_state() {
    // The answer depends on how many writes came before: the third write
    // is refused.
    let mut s = BlanketMockSink::builder().with_write_results(vec![
        Ok(()),
        Ok(()),
        Err(SinkError::UnexpectedPosition {
            expected: 99,
            actual: 12,
        }),
    ]);
    s.write(rec(10)).unwrap();
    s.write(rec(11)).unwrap();
    match s.write(rec(12)) {
        Err(SinkError::UnexpectedPosition { expected, actual }) => {
            assert_eq!((expected, actual), (99, 12));
        }
        other => panic!("got {other:?}"),
    }
}

#[test]
fn writes_that_always_fail_keep_failing() {
    let mut s = BlanketMockSink::builder().with_write_always_errors(SinkError::UnexpectedPosition {
        expected: 1,
        actual: 2,
    });
    assert_eq!(
        s.write(rec(0)),
        Err(SinkError::UnexpectedPosition {
            expected: 1,
            actual: 2
        })
    );
    assert_eq!(
        s.write(rec(0)),
        Err(SinkError::UnexpectedPosition {
            expected: 1,
            actual: 2
        })
    );
    let mut s = BlanketMockSink::builder()
        .with_write_always_errors(SinkError::Transport("disk full".into()));
    for offset in 0..3 {
        assert_eq!(
            s.write(rec(offset)),
            Err(SinkError::Transport("disk full".into()))
        );
    }
}

#[test]
fn alignments_answer_from_the_script() {
    let mut s = BlanketMockSink::builder()
        .with_align_results(vec![Err(SinkError::Transport("no".into()))]);
    assert!(s.align_to_source_low_watermark(3).is_err());
    assert!(s.align_to_source_low_watermark(3).is_ok());
}

#[test]
fn observer_fires_once_per_successful_write_in_order() {
    let mut sink = MockSink::starting_at(0);
    sink.set_write_observer(WriteLog::new());
    for off in 0..5 {
        sink.write(rec(off)).unwrap();
    }
    assert_eq!(sink.write_observer.unwrap().offsets, vec![0, 1, 2, 3, 4]);
}

#[test]
fn observer_does_not_fire_when_write_rejects_the_gate() {
    let mut sink = MockSink::starting_at(0);
    sink.set_write_observer(WriteLog::new());
    sink.write(rec(0)).unwrap();
    let err = sink.write(rec(5)).unwrap_err();
    assert!(
        matches!(err, SinkError::UnexpectedPosition { .. }),
        "got {err:?}"
    );
    assert_eq!(sink.write_observer.unwrap().offsets, vec![0]);
}

#[test]
fn observer_does_not_fire_on_a_scripted_write_error() {
    let mut sink = MockSink::starting_at(0).with_write_error(SinkError::Transport("boom".into()));
    sink.set_write_observer(WriteLog::new());
    let err = sink.write(rec(0)).unwrap_err();
    assert!(matches!(err, SinkError::Transport(_)), "got {err:?}");
    assert!(sink.write_observer.as_ref().unwrap().offsets.is_empty());
    sink.write(rec(0)).unwrap();
    assert_eq!(sink.write_observer.unwrap().offsets, vec![0]);
}

/// Keeps every value it is told.
struct RecordingAck {
    values: Vec<u64>,
}

impl AckSink for RecordingAck {
    fn note_through(&mut self, through: u64) {
        self.values.push(through);
    }
}

/// Hands every written offset on as "done below the next one".
struct BridgeToAck {
    ack: RecordingAck,
}

impl WriteObserver for BridgeToAck {
    fn on_written(&mut self, source_offset: u64) {
        self.ack.note_through(source_offset + 1);
    }
}

#[test]
fn write_observer_bridge_to_ack_sink_increments_through_offsets() {
    let mut sink = MockSink::starting_at(0);
    sink.set_write_observer(WriteLog::new());
    for off in 0..3 {
        sink.write(rec(off)).unwrap();
    }
    let mut bridge = BridgeToAck {
        ack: RecordingAck { values: vec![] },
    };
    for off in sink.write_observer.unwrap().offsets {
        bridge.on_written(off);
    }
    assert_eq!(bridge.ack.values, vec![1, 2, 3]);
}

#[test]
fn notify_only_sinks_move_forward_only() {
    let mut sink = NotifyOnlySink::new();
    assert_eq!(sink.next_expected_offset(), Ok(0));
    assert!(sink.allows_compacted_source());
    sink.align_to_source_low_watermark(7).unwrap();
    sink.write(rec(9)).unwrap();
    assert_eq!(sink.next_expected_offset(), Ok(10));
    assert_eq!(
        sink.write(rec(9)),
        Err(SinkError::UnexpectedPosition {
            expected: 10,
            actual: 9
        })
    );
}

#[test]
fn scripted_sources_know_their_ends() {
    let mut source = MockSource::new(vec![]);
    assert_eq!(source.low_watermark(), Ok(0));
    assert_eq!(source.high_watermark(), Ok(u64::MAX));
    let mut source = MockSource::new(vec![])
        .with_low_watermark(3)
        .with_high_watermark(100);
    assert_eq!(source.low_watermark(), Ok(3));
    assert_eq!(source.high_watermark(), Ok(100));
}
