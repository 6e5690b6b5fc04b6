//! What the mirror loop does at each point, in terms of the offset that it
//! expects and of what it is told.
use vstd::prelude::*;

use crate::error::{MirrorError, NotifyError, SinkError, SourceError};
use crate::mirror::{
    ended, is_history, last_action, leads, performed, polled_view, ticks_of, Notifier, RunEnd,
    RunReport, Sink, Source, Tick, World,
};
use crate::record::{Record, RecordView};
use crate::run_loop::{
    initial, is_run, law_clean_finish_flushes_then_drains, run_actions, run_state, Action, Event,
    MirrorLoop, Phase,
};

verus! {

/// A record at the expected offset is written. One below it stops the
/// mirror. One above it is put to the sink: where the sink tolerates that,
/// it is written and counts as expected, and else it stops the mirror.
/// Both errors name the expected offset and the one that came.
pub proof fn law_which_records_are_written(s: MirrorLoop, offset: u64)
    requires
        s.phase == Phase::Select,
    ensures
        ({
            let (a, act) = s.after(Event::Polled(Ok(Some(offset))));
            let (yes, write) = a.after(Event::Tolerates(true));
            let (no, stop) = a.after(Event::Tolerates(false));
            &&& s.accepts(Event::Polled(Ok(Some(offset))))
            &&& offset == s.expected ==> act == (Action::Write { offset, gap: false }) && a.phase
                == Phase::Write && a.expected == offset && a.last_heartbeat == s.last_heartbeat
            &&& offset < s.expected ==> act == Action::Finish(
                Err(MirrorError::SourceWentBackwards { expected: s.expected, got: offset }),
            ) && a.phase == Phase::Stopped
            &&& offset > s.expected ==> {
                &&& act == Action::AskTolerance
                &&& a.accepts(Event::Tolerates(true)) && a.accepts(Event::Tolerates(false))
                &&& write == (Action::Write { offset, gap: true })
                &&& yes.phase == Phase::Write
                &&& yes.expected == offset
                &&& yes.last_heartbeat == s.last_heartbeat
                &&& stop == Action::Finish(
                    Err(MirrorError::SourceGapAboveExpected { expected: s.expected, got: offset }),
                )
                &&& no.phase == Phase::Stopped
            }
        }),
{
}

/// A record that the sink took is told to the notifier, the next offset is
/// expected, and the loop goes on once the notifier has it. What the sink
/// or the notifier refuses stops the mirror with that error. After the
/// largest offset there is no next one.
pub proof fn law_after_a_write(s: MirrorLoop, e: SinkError, n: NotifyError)
    requires
        s.phase == Phase::Write,
    ensures
        ({
            let (a, act) = s.after(Event::Written(Ok(())));
            &&& s.accepts(Event::Written(Ok(()))) && s.accepts(Event::Written(Err(e)))
            &&& s.expected < u64::MAX ==> {
                &&& act == (Action::Notify { offset: s.expected })
                &&& a.expected == s.expected + 1
                &&& a.last_heartbeat == s.last_heartbeat
                &&& a.accepts(Event::Notified(Ok(()))) && a.accepts(Event::Notified(Err(n)))
                &&& a.after(Event::Notified(Ok(()))).1 == Action::Select
                &&& a.after(Event::Notified(Ok(()))).0 == (MirrorLoop {
                    expected: (s.expected + 1) as u64,
                    phase: Phase::Select,
                    ..s
                })
                &&& a.after(Event::Notified(Err(n))).1 == Action::Finish(
                    Err(MirrorError::Notify(n)),
                )
                &&& a.after(Event::Notified(Err(n))).0.phase == Phase::Stopped
            }
            &&& s.expected == u64::MAX ==> act == Action::OffsetOverflow && a.phase == Phase::Stopped
            &&& s.after(Event::Written(Err(e))).1 == Action::Finish(Err(MirrorError::Sink(e)))
            &&& s.after(Event::Written(Err(e))).0.phase == Phase::Stopped
        }),
{
}

/// A waiting mirror that is told of a heartbeat says how far it came since
/// the last one, and changes nothing else. A poll that is not back yet
/// changes nothing, and one that failed stops the mirror.
pub proof fn law_while_waiting(s: MirrorLoop, e: SourceError)
    requires
        s.phase == Phase::Select,
        s.wf(),
    ensures
        ({
            let (a, act) = s.after(Event::HeartbeatDue);
            &&& s.accepts(Event::HeartbeatDue) && s.accepts(Event::PollPending) && s.accepts(
                Event::ShutdownRequested,
            ) && s.accepts(Event::Polled(Err(e)))
            &&& act == (Action::Heartbeat {
                expected: s.expected,
                progressed: (s.expected - s.last_heartbeat) as u64,
            })
            &&& a == (MirrorLoop { last_heartbeat: s.expected, ..s })
            &&& s.after(Event::PollPending) == (s, Action::Select)
            &&& s.after(Event::Polled(Err(e))).1 == Action::Finish(Err(MirrorError::Source(e)))
            &&& s.after(Event::Polled(Err(e))).0.phase == Phase::Stopped
        }),
{
}

/// A mirror that is asked to stop flushes its sink, then drains its
/// notifier, then ends well. What either refuses is how it ends, and after
/// a flush that failed the notifier is not drained.
pub proof fn law_on_shutdown(s: MirrorLoop, e: SinkError, n: NotifyError)
    requires
        s.phase == Phase::Select,
    ensures
        ({
            let (a, flush) = s.after(Event::ShutdownRequested);
            let (b, drain) = a.after(Event::Flushed(Ok(())));
            let (c, end) = b.after(Event::NotifierStopped(Ok(())));
            &&& flush == Action::Flush
            &&& a.accepts(Event::Flushed(Ok(()))) && a.accepts(Event::Flushed(Err(e)))
            &&& drain == Action::StopNotifier
            &&& b.accepts(Event::NotifierStopped(Ok(()))) && b.accepts(
                Event::NotifierStopped(Err(n)),
            )
            &&& end == Action::Finish(Ok(()))
            &&& c.phase == Phase::Stopped
            &&& a.after(Event::Flushed(Err(e))).1 == Action::Finish(Err(MirrorError::Sink(e)))
            &&& a.after(Event::Flushed(Err(e))).0.phase == Phase::Stopped
            &&& b.after(Event::NotifierStopped(Err(n))).1 == Action::Finish(
                Err(MirrorError::Notify(n)),
            )
            &&& b.after(Event::NotifierStopped(Err(n))).0.phase == Phase::Stopped
        }),
{
}

/// How a mirror starts: it asks the sink, then the source, where they
/// stand, then the sink whether it tolerates a compacted source. Where the
/// source reaches back to the sink it is positioned where the sink stands.
/// Else the sink is asked again: where it tolerates that, it is moved to
/// where the source starts, and the source is positioned there.
pub proof fn law_how_a_mirror_starts(s: MirrorLoop, at: u64, low: u64, label: bool)
    requires
        s.phase == Phase::SinkStart,
    ensures
        ({
            let (a, one) = s.after(Event::SinkAt(Ok(at)));
            let (b, two) = a.after(Event::SourceStartsAt(Ok(low)));
            let (c, three) = b.after(Event::Tolerates(label));
            let (d, four) = c.after(Event::Tolerates(true));
            let (e, five) = d.after(Event::Aligned(Ok(())));
            &&& s.accepts(Event::SinkAt(Ok(at)))
            &&& one == Action::AskSource
            &&& a.accepts(Event::SourceStartsAt(Ok(low)))
            &&& two == Action::AskTolerance
            &&& b.accepts(Event::Tolerates(label))
            &&& low <= at ==> three == Action::Seek(at) && c.expected == at && c.last_heartbeat == at
                && c.accepts(Event::Sought(Ok(()))) && c.after(Event::Sought(Ok(()))).1
                == Action::Select && c.after(Event::Sought(Ok(()))).0 == (MirrorLoop {
                phase: Phase::Select,
                ..c
            })
            &&& at < low ==> {
                &&& three == Action::AskTolerance
                &&& c.accepts(Event::Tolerates(true))
                &&& four == Action::Align(low)
                &&& d.accepts(Event::Aligned(Ok(())))
                &&& five == Action::Seek(low)
                &&& e.expected == low
                &&& e.last_heartbeat == low
                &&& e.accepts(Event::Sought(Ok(())))
                &&& e.after(Event::Sought(Ok(()))).1 == Action::Select
                &&& e.after(Event::Sought(Ok(()))).0 == (MirrorLoop { phase: Phase::Select, ..e })
                &&& c.after(Event::Tolerates(false)).1 == Action::Finish(
                    Err(
                        MirrorError::SourceCompactedBelowExpected {
                            start: at,
                            low_watermark: low,
                            low_watermark_minus_one: (low - 1) as u64,
                        },
                    ),
                )
            }
        }),
{
}

/// A sink or a source that cannot answer stops the mirror with that error,
/// at the start and while the source is idle.
pub proof fn law_answers_that_fail(s: MirrorLoop, e: SinkError, f: SourceError)
    ensures
        s.after(Event::SinkAt(Err(e))).1 == Action::Finish(Err(MirrorError::Sink(e))),
        s.after(Event::SinkAt(Err(e))).0.phase == Phase::Stopped,
        s.after(Event::SourceStartsAt(Err(f))).1 == Action::Finish(Err(MirrorError::Source(f))),
        s.after(Event::SourceStartsAt(Err(f))).0.phase == Phase::Stopped,
        s.after(Event::Aligned(Err(e))).1 == Action::Finish(Err(MirrorError::Sink(e))),
        s.after(Event::Aligned(Err(e))).0.phase == Phase::Stopped,
        s.after(Event::Sought(Err(f))).1 == Action::Finish(Err(MirrorError::Source(f))),
        s.after(Event::Sought(Err(f))).0.phase == Phase::Stopped,
{
}

// ---- the driver -----------------------------------------------------------------

/// What is written, and what the notifier is told, is the record that was
/// polled last, as it was polled. Neither call touches anything but the one
/// that is called.
pub proof fn law_what_was_polled_is_written<S: Source, K: Sink, N: Notifier>(
    a: World<S, K, N>,
    asked: Action,
    b: World<S, K, N>,
    r: Result<(), SinkError>,
    n: Result<(), NotifyError>,
)
    ensures
        performed(a, asked, Event::Written(r), b) ==> {
            &&& a.held is Some
            &&& a.sink.takes_record(&b.sink, a.held->0, r)
            &&& b.source == a.source
            &&& b.notifier == a.notifier
            &&& b.held == a.held
        },
        performed(a, asked, Event::Notified(n), b) ==> {
            &&& a.held is Some
            &&& a.notifier.hears_record(&b.notifier, a.held->0, n)
            &&& b.source == a.source
            &&& b.sink == a.sink
            &&& b.held == a.held
        },
{
}

/// A poll holds the record that the source gave, under its offset, and no
/// record where the source gave none. It touches neither sink nor notifier.
pub proof fn law_what_a_poll_brings<S: Source, K: Sink, N: Notifier>(
    a: World<S, K, N>,
    asked: Action,
    b: World<S, K, N>,
    offset: u64,
    e: SourceError,
)
    ensures
        performed(a, asked, Event::Polled(Ok(Some(offset))), b) ==> {
            &&& b.held is Some
            &&& b.held->0.source_offset == offset
            &&& a.source.polls(&b.source, Some(Ok(b.held)))
            &&& b.sink == a.sink
            &&& b.notifier == a.notifier
        },
        performed(a, asked, Event::Polled(Ok(None)), b) ==> {
            &&& a.source.polls(&b.source, Some(Ok(None)))
            &&& b.held == a.held
            &&& b.sink == a.sink
            &&& b.notifier == a.notifier
        },
        performed(a, asked, Event::Polled(Err(e)), b) ==> {
            &&& a.source.polls(&b.source, Some(Err(e)))
            &&& b.sink == a.sink
            &&& b.notifier == a.notifier
        },
        performed(a, asked, Event::PollPending, b) ==> {
            &&& a.source.polls(&b.source, None)
            &&& b.sink == a.sink
            &&& b.notifier == a.notifier
        },
{
}

/// The other calls are those that the loop asked for: the sink is asked
/// for its position and its tolerance, moved and flushed, the source is
/// asked for its start and positioned where the loop said, and the
/// notifier is drained. Shutdown and heartbeats call nobody.
pub proof fn law_what_is_called<S: Source, K: Sink, N: Notifier>(
    a: World<S, K, N>,
    asked: Action,
    e: Event,
    b: World<S, K, N>,
)
    requires
        performed(a, asked, e, b),
    ensures
        e matches Event::SinkAt(r) ==> a.sink.reports_position(&b.sink, r) && b.source == a.source
            && b.notifier == a.notifier && b.held == a.held,
        e matches Event::SourceStartsAt(r) ==> a.source.starts_at(&b.source, r) && b.sink == a.sink
            && b.notifier == a.notifier && b.held == a.held,
        e matches Event::Tolerates(t) ==> t == a.sink.tolerates_gaps() && b.source == a.source
            && b.notifier == a.notifier && b.held == a.held,
        e matches Event::Aligned(r) ==> (asked matches Action::Align(low) && a.sink.aligns_to(
            &b.sink,
            low,
            r,
        )) && b.source == a.source && b.notifier == a.notifier && b.held == a.held,
        e matches Event::Sought(r) ==> (asked matches Action::Seek(offset) && a.source.seeks_to(
            &b.source,
            offset,
            r,
        )) && b.sink == a.sink && b.notifier == a.notifier && b.held == a.held,
        e matches Event::Flushed(r) ==> a.sink.flushes(&b.sink, r) && b.source == a.source
            && b.notifier == a.notifier && b.held == a.held,
        e matches Event::NotifierStopped(r) ==> a.notifier.drains(&b.notifier, r) && b.source
            == a.source && b.sink == a.sink && b.held == a.held,
        e is ShutdownRequested || e is HeartbeatDue ==> b == a,
{
}

/// What a poll gives is its record, seen as contents.
pub proof fn law_polls_are_seen_as_they_are(record: Record, e: SourceError)
    ensures
        polled_view(Some(Ok(Some(record)))) == Some(Ok::<Option<RecordView>, SourceError>(Some(record@))),
        polled_view(Some(Ok(None))) == Some(Ok::<Option<RecordView>, SourceError>(None)),
        polled_view(Some(Err(e))) == Some(Err::<Option<RecordView>, SourceError>(e)),
        polled_view(None) is None,
{
}

/// Every tick that was used is answered by exactly one event, in order: a
/// shutdown, a heartbeat, or what became of a poll. No other event answers
/// one.
pub proof fn law_ticks_are_answered_in_order(events: Seq<Event>, e: Event)
    ensures
        ticks_of(seq![]) == Seq::<Tick>::empty(),
        e is ShutdownRequested ==> ticks_of(events.push(e)) == ticks_of(events).push(Tick::Shutdown),
        e is HeartbeatDue ==> ticks_of(events.push(e)) == ticks_of(events).push(Tick::Heartbeat),
        e is Polled || e is PollPending ==> ticks_of(events.push(e)) == ticks_of(events).push(
            Tick::Poll,
        ),
        !(e is ShutdownRequested) && !(e is HeartbeatDue) && !(e is Polled) && !(e is PollPending)
            ==> ticks_of(events.push(e)) == ticks_of(events),
{
    assert(events.push(e).drop_last() =~= events);
}

/// The loop first asks the sink where it stands, and then what followed the
/// last event.
pub proof fn law_what_was_asked_last(s: MirrorLoop, events: Seq<Event>, e: Event)
    ensures
        last_action(s, seq![]) == Action::AskSink,
        last_action(s, events.push(e)) == run_state(s, events).after(e).1,
{
    assert(events.push(e).drop_last() =~= events);
    assert(run_actions(s, events.push(e)).last() == run_state(s, events).after(e).1);
}

/// How a run ends: with the outcome that the loop came to, without a next
/// offset, or still waiting. It ends well only after a shutdown.
pub proof fn law_how_runs_end(r: RunReport)
    requires
        ended(r),
        is_run(initial(), r.events@),
    ensures
        r.end matches RunEnd::Finished(outcome) ==> r.events@.len() > 0 && run_actions(
            initial(),
            r.events@,
        ).last() == Action::Finish(outcome),
        r.end is OffsetOverflow ==> r.events@.len() > 0 && run_actions(initial(), r.events@).last()
            == Action::OffsetOverflow,
        r.end is Waiting ==> run_state(initial(), r.events@).phase == Phase::Select,
        r.end matches RunEnd::Finished(outcome) ==> (outcome is Ok ==> r.events@.len() >= 3
            && r.events@[r.events@.len() - 3] is ShutdownRequested),
{
    if let RunEnd::Finished(outcome) = r.end {
        if outcome is Ok {
            assert(outcome->Ok_0 == ());
            law_clean_finish_flushes_then_drains(r.events@);
        }
    }
}

/// A run starts with what it was given and leaves what it ends with, and
/// each event between is what came of what was asked then.
pub proof fn law_histories_are_unbroken<S: Source, K: Sink, N: Notifier>(
    worlds: Seq<World<S, K, N>>,
    events: Seq<Event>,
    before: (S, K, N),
    after: (S, K, N),
    i: int,
)
    requires
        is_history(worlds, initial(), events),
        leads(worlds, before, after),
    ensures
        worlds.len() == events.len() + 1,
        worlds[0].source == before.0,
        worlds[0].sink == before.1,
        worlds[0].notifier == before.2,
        worlds[0].held is None,
        worlds[events.len() as int].source == after.0,
        worlds[events.len() as int].sink == after.1,
        worlds[events.len() as int].notifier == after.2,
        0 <= i < events.len() ==> performed(
            worlds[i],
            last_action(initial(), events.take(i)),
            events[i],
            worlds[i + 1],
        ),
    decreases events.len(),
{
    if 0 <= i < events.len() {
        lemma_history_step(worlds, events, i);
    }
}

proof fn lemma_history_step<S: Source, K: Sink, N: Notifier>(
    worlds: Seq<World<S, K, N>>,
    events: Seq<Event>,
    i: int,
)
    requires
        is_history(worlds, initial(), events),
        0 <= i < events.len(),
    ensures
        performed(
            worlds[i],
            last_action(initial(), events.take(i)),
            events[i],
            worlds[i + 1],
        ),
    decreases events.len(),
{
    let init = events.drop_last();
    if i < init.len() {
        lemma_history_step(worlds.drop_last(), init, i);
        assert(init.take(i) =~= events.take(i));
    } else {
        assert(events.take(i) =~= init);
    }
}

} // verus!
