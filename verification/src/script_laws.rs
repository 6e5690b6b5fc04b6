//! What scripted sources, sinks and notifiers, and the sink of mirrors that
//! only notify, do.
use vstd::prelude::*;

use crate::config::Mirror;
use crate::error::{NotifyError, SinkError, SourceError};
use crate::mirror::{NoOpNotifier, Notifier, Sink, Source};
use crate::mock::{MockNotifier, MockSink, MockSource, MockSourceEvent};
use crate::record::{records_view, RecordView};
use crate::supervisor::{plans_destination, InnerPlan, NotifyOnlySink};
use crate::testing::{later_answers, next_answer, BlanketMockSink, Call, Positions};

verus! {

/// A scripted source follows its script, one event for each poll. It never
/// comes back once it hangs or its script is used up.
pub proof fn law_scripted_polls(
    a: MockSource,
    b: MockSource,
    r: Option<Result<Option<RecordView>, SourceError>>,
)
    requires
        a.polls(&b, r),
    ensures
        b.seeks == a.seeks,
        b.low_watermark == a.low_watermark,
        b.high_watermark == a.high_watermark,
        a.events@.len() == 0 || a.events@[0] is Hang ==> r is None && b.events@ == a.events@,
        a.events@.len() > 0 && !(a.events@[0] is Hang) ==> b.events@ == a.events@.skip(1),
        a.events@.len() > 0 ==> match a.events@[0] {
            MockSourceEvent::Record(record) => r matches Some(Ok(Some(x))) && x == record@,
            MockSourceEvent::Idle => r matches Some(Ok(None)),
            MockSourceEvent::Error(m) => r matches Some(Err(e)) && e == SourceError::Transport(m),
            MockSourceEvent::Hang => r is None,
        },
{
}

/// A scripted source remembers where it was sent, in order, and says that
/// it starts where it was told to.
pub proof fn law_scripted_sources(
    a: MockSource,
    b: MockSource,
    offset: u64,
    r: Result<(), SourceError>,
    s: Result<u64, SourceError>,
)
    ensures
        a.seeks_to(&b, offset, r) ==> r is Ok && b.seeks@ == a.seeks@.push(offset) && b.events
            == a.events,
        a.starts_at(&b, s) ==> (s matches Ok(low) && low == a.low_watermark) && b == a,
{
}

/// A scripted sink reports the positions of its script, and then where it
/// stands. It takes exactly the record at which it stands, unless it was
/// told to fail, and stands behind it then.
pub proof fn law_scripted_sinks(
    a: MockSink,
    b: MockSink,
    p: Result<u64, SinkError>,
    record: RecordView,
    r: Result<(), SinkError>,
)
    ensures
        a.reports_position(&b, p) ==> {
            &&& a.position_program@.len() > 0 ==> (p matches Ok(x) && x == a.position_program@[0])
                && b.position_program@ == a.position_program@.skip(1)
            &&& a.position_program@.len() == 0 ==> (p matches Ok(x) && x == a.running_position)
            &&& b.writes == a.writes && b.running_position == a.running_position
        },
        a.takes_record(&b, record, r) ==> {
            &&& r is Ok <==> a.write_error is None && record.source_offset == a.running_position
                && record.source_offset < u64::MAX
            &&& r is Ok ==> records_view(b.writes@) == records_view(a.writes@).push(record)
                && b.running_position == record.source_offset + 1
            &&& r is Err ==> b.writes == a.writes && b.running_position == a.running_position
                && b.write_error is None
            &&& a.write_error matches Some(e) ==> (r matches Err(f) && f == e)
        },
        a.flushes(&b, r) ==> r is Ok && b == a,
        a.tolerates_gaps() == a.allows_compacted_source,
{
}

/// A scripted sink that is moved stands where it was moved to.
pub proof fn law_scripted_sinks_are_moved(
    a: MockSink,
    b: MockSink,
    low: u64,
    r: Result<(), SinkError>,
)
    requires
        a.aligns_to(&b, low, r),
    ensures
        r is Ok,
        b.running_position == low,
        b.writes == a.writes,
{
}

/// A scripted notifier keeps every offset it is told of, in order, and fails
/// once, at the offset or the shutdown that its script names.
pub proof fn law_scripted_notifiers(
    a: MockNotifier,
    b: MockNotifier,
    record: RecordView,
    r: Result<(), NotifyError>,
)
    ensures
        a.hears_record(&b, record, r) ==> {
            &&& b.offsets@ == a.offsets@.push(record.source_offset)
            &&& b.shutdowns == a.shutdowns
            &&& r is Err <==> (a.record_error matches Some((at, _)) && at == record.source_offset)
            &&& r is Err ==> b.record_error is None
            &&& r is Ok ==> b.record_error == a.record_error
        },
        a.drains(&b, r) ==> {
            &&& r is Err <==> a.shutdown_error is Some
            &&& a.shutdowns < u64::MAX ==> b.shutdowns == a.shutdowns + 1
            &&& b.offsets == a.offsets
            &&& b.shutdown_error is None
        },
{
}

/// Scripted answers are given in order, each once, and everything succeeds
/// after them.
pub proof fn law_scripted_answers(answers: Seq<Result<(), SinkError>>, a: Result<(), SinkError>)
    ensures
        next_answer(seq![]) is Ok,
        later_answers(seq![]) == Seq::<Result<(), SinkError>>::empty(),
        next_answer(seq![a] + answers) == a,
        later_answers(seq![a] + answers) == answers,
{
    assert((seq![a] + answers).skip(1) =~= answers);
}

/// A recording sink records every call, in order, with what it was given,
/// and answers as its script says.
pub proof fn law_recording_sinks(
    a: BlanketMockSink,
    b: BlanketMockSink,
    p: Result<u64, SinkError>,
    record: RecordView,
    low: u64,
    r: Result<(), SinkError>,
)
    ensures
        a.reports_position(&b, p) ==> {
            &&& b.calls@ == a.calls@.push(Call::NextExpectedOffset)
            &&& a.positions matches Positions::Fixed(v) ==> (p matches Ok(x) && x == v)
            &&& a.positions matches Positions::Sequence(q) ==> {
                &&& q@.len() > 0 ==> (p matches Ok(x) && x == q@[0])
                &&& q@.len() == 0 ==> p is Err
            }
        },
        a.takes_record(&b, record, r) ==> {
            &&& b.calls@ == a.calls@.push(Call::Write { source_offset: record.source_offset })
            &&& a.write_error matches Some(e) ==> (r matches Err(f) && f == e)
            &&& a.write_error is None && a.write_results@.len() > 0 ==> r == a.write_results@[0]
                && b.write_results@ == a.write_results@.skip(1)
            &&& a.write_error is None && a.write_results@.len() == 0 ==> r is Ok
        },
        a.tells_tolerance(&b) ==> b.calls@ == a.calls@.push(Call::AllowsCompactedSource),
        a.tolerates_gaps() == a.compacted_source_allowed,
        a.aligns_to(&b, low, r) ==> {
            &&& b.calls@ == a.calls@.push(Call::AlignToSourceLowWatermark { low_watermark: low })
            &&& a.align_results@.len() > 0 ==> r == a.align_results@[0]
            &&& a.align_results@.len() == 0 ==> r is Ok
        },
        a.flushes(&b, r) ==> {
            &&& b.calls@ == a.calls@.push(Call::Flush)
            &&& a.flush_results@.len() > 0 ==> r == a.flush_results@[0]
            &&& a.flush_results@.len() == 0 ==> r is Ok
        },
{
}

/// The sink of a mirror that only notifies takes every record from where it
/// stands on, gaps or not, and stands behind it then. It tolerates a
/// compacted source and moves to where the source starts.
pub proof fn law_notify_only_sinks(
    a: NotifyOnlySink,
    b: NotifyOnlySink,
    record: RecordView,
    low: u64,
    p: Result<u64, SinkError>,
    r: Result<(), SinkError>,
)
    ensures
        a.tolerates_gaps(),
        a.reports_position(&b, p) ==> (p matches Ok(x) && x == a.position) && b == a,
        a.takes_record(&b, record, r) ==> {
            &&& r is Ok <==> a.position <= record.source_offset < u64::MAX
            &&& r is Ok ==> b.position == record.source_offset + 1
            &&& r is Err ==> b == a
            &&& record.source_offset < a.position ==> r == Err::<(), SinkError>(
                SinkError::UnexpectedPosition {
                    expected: a.position,
                    actual: record.source_offset,
                },
            )
        },
        a.aligns_to(&b, low, r) ==> r is Ok && b.position == low,
        a.flushes(&b, r) ==> r is Ok && b == a,
{
}

/// The sink of a destination is called as the destination is, and says in
/// logs of which type it is. A Kafka destination is done with every write;
/// one that stores files with every flush.
pub proof fn law_planned_sinks(p: InnerPlan, m: Mirror, i: int)
    requires
        plans_destination(p, m, i),
        0 <= i < m.destinations@.len(),
    ensures
        p.name@ == crate::config::called(m.destinations@[i], m.name@),
        m.destinations@[i] is Kafka ==> p.acks is Writes && p.description@ == p.name@ + "("@
            + "kafka"@ + ")"@,
        m.destinations@[i] is Filesystem ==> p.acks is Flushes && p.description@ == p.name@ + "("@
            + "filesystem"@ + ")"@,
        m.destinations@[i] is S3 ==> p.acks is Flushes && p.description@ == p.name@ + "("@ + "s3"@
            + ")"@,
{
}

/// A call on a recording sink uses up at most the answer that it gives, and
/// leaves the rest of the script.
pub proof fn law_recording_sinks_keep_their_script(
    a: BlanketMockSink,
    b: BlanketMockSink,
    p: Result<u64, SinkError>,
    record: RecordView,
    low: u64,
    r: Result<(), SinkError>,
)
    ensures
        a.reports_position(&b, p) ==> b.write_results == a.write_results && b.write_error
            == a.write_error && b.flush_results == a.flush_results && b.align_results
            == a.align_results && b.compacted_source_allowed == a.compacted_source_allowed,
        a.takes_record(&b, record, r) ==> b.positions == a.positions && b.write_error
            == a.write_error && b.flush_results == a.flush_results && b.align_results
            == a.align_results && b.compacted_source_allowed == a.compacted_source_allowed,
        a.tells_tolerance(&b) ==> b.positions == a.positions && b.write_results == a.write_results
            && b.write_error == a.write_error && b.flush_results == a.flush_results
            && b.align_results == a.align_results && b.compacted_source_allowed
            == a.compacted_source_allowed,
        a.aligns_to(&b, low, r) ==> b.positions == a.positions && b.write_results
            == a.write_results && b.write_error == a.write_error && b.flush_results
            == a.flush_results && b.compacted_source_allowed == a.compacted_source_allowed,
        a.flushes(&b, r) ==> b.positions == a.positions && b.write_results == a.write_results
            && b.write_error == a.write_error && b.align_results == a.align_results
            && b.compacted_source_allowed == a.compacted_source_allowed,
{
}

/// A notifier that does nothing never fails.
pub proof fn law_silent_notifiers(
    a: NoOpNotifier,
    b: NoOpNotifier,
    record: RecordView,
    r: Result<(), NotifyError>,
)
    ensures
        a.hears_record(&b, record, r) ==> r is Ok && b.told() == a.told().push(
            record.source_offset,
        ),
        a.drains(&b, r) ==> r is Ok && b == a,
{
}

/// A scripted sink, and the sink of mirrors that only notify, are not
/// changed by being asked whether they tolerate a compacted source. What a
/// scripted sink accepts it tells its observer, if it has one.
pub proof fn law_scripted_sinks_are_observed(
    a: MockSink,
    b: MockSink,
    c: NotifyOnlySink,
    d: NotifyOnlySink,
    record: RecordView,
    r: Result<(), SinkError>,
)
    ensures
        a.tells_tolerance(&b) ==> b == a,
        c.tells_tolerance(&d) ==> d == c,
        a.takes_record(&b, record, r) && r is Ok ==> {
            &&& a.write_observer is None ==> b.write_observer is None
            &&& a.write_observer matches Some(log) ==> b.write_observer is Some
                && b.write_observer->0.offsets@ == log.offsets@.push(record.source_offset)
        },
        a.takes_record(&b, record, r) && r is Err ==> b.write_observer == a.write_observer,
{
}

} // verus!
