//! What a notifier is told, and when.
use mirror_v3::error::{MirrorError, NotifyError, SinkError};
use mirror_v3::mirror::{run_mirror_with_notifier, RunEnd, Tick};
use mirror_v3::mock::{rec, MockNotifier, MockSink, MockSource, MockSourceEvent};
use mirror_v3::run_loop::{Action, Event, MirrorLoop};
use mirror_v3::supervisor::NotifyOnlySink;
use mirror_v3::tee::TeeSink;
use mirror_v3::testing::{BlanketMockSink, Call};

/// Ticks that only ever poll, more than any script here needs.
fn polls() -> Vec<Tick> {
    vec![Tick::Poll; 20]
}

fn outcome(end: RunEnd) -> Result<(), MirrorError> {
    match end {
        RunEnd::Finished(outcome) => outcome,
        other => panic!("the run did not finish: {other:?}"),
    }
}

#[test]
fn on_record_fires_once_per_successful_write_in_offset_order() {
    let mut source = MockSource::new(vec![
        MockSourceEvent::Record(rec(10)),
        MockSourceEvent::Record(rec(11)),
        MockSourceEvent::Record(rec(12)),
        MockSourceEvent::Error("stop".into()),
    ]);
    let mut sink = MockSink::starting_at(10);
    let mut notifier = MockNotifier::new();
    let report = run_mirror_with_notifier(&mut source, &mut sink, &mut notifier, &polls());
    assert!(matches!(outcome(report.end), Err(MirrorError::Source(_))));
    assert_eq!(notifier.offsets, vec![10, 11, 12]);
    assert_eq!(notifier.shutdowns, 0);
}

#[test]
fn shutdown_fires_after_flush_on_graceful_exit() {
    let mut source = MockSource::new(vec![MockSourceEvent::Hang]);
    let mut sink = BlanketMockSink::builder();
    let mut notifier = MockNotifier::new();
    let report =
        run_mirror_with_notifier(&mut source, &mut sink, &mut notifier, &vec![Tick::Shutdown]);
    let result = outcome(report.end);
    assert!(matches!(result, Ok(())), "expected Ok, got {result:?}");
    let flushes = sink.calls().iter().filter(|c| **c == Call::Flush).count();
    assert_eq!(flushes, 1);
    assert_eq!(notifier.shutdowns, 1);

    // The order of the two: the loop asks for the flush, and for the
    // notifier's shutdown only once the flush succeeded.
    let mut steps = MirrorLoop::start();
    steps.step(Event::SinkAt(Ok(0)));
    steps.step(Event::SourceStartsAt(Ok(0)));
    steps.step(Event::Tolerates(false));
    steps.step(Event::Sought(Ok(())));
    assert!(matches!(steps.step(Event::ShutdownRequested), Action::Flush));
    assert!(matches!(
        steps.step(Event::Flushed(Ok(()))),
        Action::StopNotifier
    ));
    assert!(matches!(
        steps.step(Event::NotifierStopped(Ok(()))),
        Action::Finish(Ok(()))
    ));
    assert!(steps.stopped());
}

#[test]
fn a_failed_flush_leaves_the_notifier_running() {
    let mut source = MockSource::new(vec![]);
    let mut sink = BlanketMockSink::builder()
        .with_flush_results(vec![Err(SinkError::Transport("disk full".into()))]);
    let mut notifier = MockNotifier::new();
    let report =
        run_mirror_with_notifier(&mut source, &mut sink, &mut notifier, &vec![Tick::Shutdown]);
    assert!(matches!(outcome(report.end), Err(MirrorError::Sink(_))));
    assert_eq!(notifier.shutdowns, 0);
}

#[test]
fn notify_error_from_on_record_propagates_as_mirror_error() {
    let mut source = MockSource::new(vec![
        MockSourceEvent::Record(rec(0)),
        MockSourceEvent::Record(rec(1)), // never reached
    ]);
    let mut sink = MockSink::starting_at(0);
    let mut notifier = MockNotifier::new()
        .with_record_error(0, NotifyError::Transport("boom at offset 0".into()));
    let report = run_mirror_with_notifier(&mut source, &mut sink, &mut notifier, &polls());
    match outcome(report.end) {
        Err(MirrorError::Notify(NotifyError::Transport(msg))) => {
            assert!(msg.contains("offset 0"), "got: {msg}");
        }
        other => panic!("expected MirrorError::Notify(Transport), got {other:?}"),
    }
    assert_eq!(notifier.offsets, vec![0]);
}

#[test]
fn notify_error_from_shutdown_propagates_as_mirror_error() {
    let mut source = MockSource::new(vec![MockSourceEvent::Hang]);
    let mut sink = MockSink::starting_at(0);
    let mut notifier = MockNotifier::new().with_shutdown_error(NotifyError::Exhausted {
        attempts: 5,
        last_error: "shutdown drain failed".into(),
    });
    let report =
        run_mirror_with_notifier(&mut source, &mut sink, &mut notifier, &vec![Tick::Shutdown]);
    match outcome(report.end) {
        Err(MirrorError::Notify(NotifyError::Exhausted {
            attempts,
            last_error,
        })) => {
            assert_eq!(attempts, 5);
            assert_eq!(last_error, "shutdown drain failed");
        }
        other => panic!("expected MirrorError::Notify(Exhausted), got {other:?}"),
    }
}

#[test]
fn on_record_does_not_fire_when_sink_write_fails() {
    let mut source = MockSource::new(vec![MockSourceEvent::Record(rec(0))]);
    let mut sink =
        MockSink::starting_at(0).with_write_error(SinkError::Transport("disk full".into()));
    let mut notifier = MockNotifier::new();
    let report = run_mirror_with_notifier(&mut source, &mut sink, &mut notifier, &polls());
    assert!(matches!(
        outcome(report.end),
        Err(MirrorError::Sink(SinkError::Transport(_)))
    ));
    assert!(notifier.offsets.is_empty());
}

#[test]
fn on_record_does_not_fire_on_source_went_backwards() {
    let mut source = MockSource::new(vec![
        MockSourceEvent::Record(rec(10)),
        MockSourceEvent::Record(rec(9)),
    ]);
    let mut sink = MockSink::starting_at(10).with_allows_compacted_source(true);
    let mut notifier = MockNotifier::new();
    let report = run_mirror_with_notifier(&mut source, &mut sink, &mut notifier, &polls());
    assert!(matches!(
        outcome(report.end),
        Err(MirrorError::SourceWentBackwards { .. })
    ));
    assert_eq!(notifier.offsets, vec![10]);
}

#[test]
fn on_record_fires_for_gapped_offsets_under_compaction_log() {
    let mut source = MockSource::new(vec![
        MockSourceEvent::Record(rec(461)),
        MockSourceEvent::Record(rec(466)),
        MockSourceEvent::Record(rec(470)),
        MockSourceEvent::Error("stop".into()),
    ])
    .with_low_watermark(0);
    let mut sink = NotifyOnlySink::new();
    let mut notifier = MockNotifier::new();
    let report = run_mirror_with_notifier(&mut source, &mut sink, &mut notifier, &polls());
    let result = outcome(report.end);
    assert!(
        matches!(result, Err(MirrorError::Source(_))),
        "got: {result:?}"
    );
    assert_eq!(notifier.offsets, vec![461, 466, 470]);
    assert_eq!(sink.position, 471);
}

#[test]
fn resume_floor_replays_unacked_window_to_notifier_without_rewriting_destination() {
    // The destination is durable up to offset 4, but only offsets below 2
    // were notified.
    let mut source = MockSource::new(vec![
        MockSourceEvent::Record(rec(2)),
        MockSourceEvent::Idle,
        MockSourceEvent::Record(rec(3)),
        MockSourceEvent::Record(rec(4)),
        MockSourceEvent::Idle,
        MockSourceEvent::Record(rec(5)),
        MockSourceEvent::Record(rec(6)),
        MockSourceEvent::Idle,
        MockSourceEvent::Error("end of test".into()),
    ]);
    let sink = MockSink::starting_at(5);
    let mut tee =
        TeeSink::from_inners_for_test(vec!["dest".to_string()], vec![sink], vec![5], None);
    tee.set_resume_floor(2);
    let mut notifier = MockNotifier::new();
    let report = run_mirror_with_notifier(&mut source, &mut tee, &mut notifier, &polls());
    let result = outcome(report.end);
    assert!(
        matches!(result, Err(MirrorError::Source(_))),
        "got: {result:?}"
    );
    assert_eq!(notifier.offsets, vec![2, 3, 4, 5, 6]);
    assert_eq!(
        tee.inners[0]
            .writes
            .iter()
            .map(|r| r.source_offset)
            .collect::<Vec<_>>(),
        vec![5, 6]
    );
}

#[test]
fn notify_errors_have_a_text() {
    assert_eq!(
        MirrorError::Notify(NotifyError::Transport("x".into())).message(),
        "notify transport: x"
    );
    assert_eq!(
        NotifyError::Exhausted {
            attempts: 5,
            last_error: "503".into()
        }
        .message(),
        "notify exhausted after 5 attempts: 503"
    );
}
