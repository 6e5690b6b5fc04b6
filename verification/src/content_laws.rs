//! What values stand for: the contents of records, batches and statuses,
//! and the words of labels and errors.
use vstd::prelude::*;

use crate::cache::{
    listed_offsets, report_rows, MirrorStatus, MirrorStatusSnapshot, StatusView,
    TopicPartitionOffset,
};
use crate::chain::{batches, texts, BatchFile, FsError};
use crate::column::{column_fault, json_fault, ColumnType};
use crate::config::{AtUtcError, LoadError};
use crate::envelope::EnvelopeError;
use crate::envsubst::EnvSubstError;
use crate::error::{MirrorError, NotifyError, SinkError, SourceError};
use crate::record::{
    headers_view, payload_view, records_view, FlushTrigger, Header, Record,
};
use crate::text::{debug_quoted, dec};
use crate::utf8::utf8_fault;

verus! {

/// The contents of a record are all of its fields, those of a header its
/// name and value, and lists stand for their items, in order.
pub proof fn law_contents_of_records(r: Record, h: Header, rs: Seq<Record>, hs: Seq<Header>, i: int)
    ensures
        r@.topic == r.topic@,
        r@.partition == r.partition,
        r@.source_offset == r.source_offset,
        r@.timestamp_ms == r.timestamp_ms,
        r@.timestamp_type == r.timestamp_type,
        r.key matches Some(b) ==> r@.key == Some(b@),
        r.key is None ==> r@.key is None,
        r.value matches Some(b) ==> r@.value == Some(b@),
        r.value is None ==> r@.value is None,
        r@.headers == headers_view(r.headers@),
        h@.key == h.key@,
        h.value matches Some(b) ==> h@.value == Some(b@),
        h.value is None ==> h@.value is None,
        payload_view(h.value) == h@.value,
        records_view(rs).len() == rs.len(),
        0 <= i < rs.len() ==> records_view(rs)[i] == rs[i]@,
        headers_view(hs).len() == hs.len(),
        0 <= i < hs.len() ==> headers_view(hs)[i] == hs[i]@,
{
}

/// A listed batch stands for its offsets and its name, and a listing for
/// its names, in order.
pub proof fn law_contents_of_listings(f: BatchFile, fs: Seq<BatchFile>, names: Seq<String>, i: int)
    ensures
        f@.from == f.from,
        f@.to == f.to,
        f@.name == f.name@,
        batches(fs).len() == fs.len(),
        0 <= i < fs.len() ==> batches(fs)[i] == fs[i]@,
        texts(names).len() == names.len(),
        0 <= i < names.len() ==> texts(names)[i] == names[i]@,
{
}

/// What a status stands for.
pub proof fn law_contents_of_statuses(s: MirrorStatus)
    ensures
        s is Warming <==> s@ is Warming,
        s is Ready <==> s@ is Ready,
        s matches MirrorStatus::LagBehindSource { lag } ==> s@ == (StatusView::LagBehindSource {
            lag,
        }),
        s matches MirrorStatus::SourceUnassigned { topic, partition } ==> s@ == (
        StatusView::SourceUnassigned { topic: topic@, partition }),
        s matches MirrorStatus::DestinationLagging { name, lag } ==> s@ == (
        StatusView::DestinationLagging { name: name@, lag }),
{
}

/// The rows of a report and of a listing of offsets stand for what is in
/// their fields, in order.
pub proof fn law_contents_of_reports(
    rows: Seq<MirrorStatusSnapshot>,
    offsets: Seq<TopicPartitionOffset>,
    i: int,
)
    ensures
        report_rows(rows).len() == rows.len(),
        0 <= i < rows.len() ==> {
            let (name, row) = report_rows(rows)[i];
            &&& name == rows[i].name@
            &&& row.topic == rows[i].topic@
            &&& row.partition == rows[i].partition
            &&& row.source_assigned == rows[i].source_assigned
            &&& row.last_applied_offset == rows[i].last_applied_offset
            &&& row.broker_end_offset == rows[i].broker_end_offset
            &&& row.status == rows[i].status@
        },
        listed_offsets(offsets).len() == offsets.len(),
        0 <= i < offsets.len() ==> {
            let (tp, offset) = listed_offsets(offsets)[i];
            &&& tp.0 == offsets[i].topic@
            &&& tp.1 == offsets[i].partition
            &&& offset == offsets[i].offset
        },
{
}

/// The words of what made a sink store what it collected.
pub proof fn law_words_of_triggers()
    ensures
        FlushTrigger::MaxOffsets.label() == "max-offsets"@,
        FlushTrigger::MaxBytes.label() == "max-bytes"@,
        FlushTrigger::MaxTime.label() == "max-time"@,
        FlushTrigger::Daily.label() == "daily"@,
        FlushTrigger::Explicit.label() == "explicit"@,
{
}

/// The words of what sources, sinks and notifiers refuse.
pub proof fn law_words_of_failures(m: String, expected: u64, actual: u64, attempts: u32)
    ensures
        SourceError::Transport(m).text() == "source transport: "@ + m@,
        SinkError::Transport(m).text() == "sink transport: "@ + m@,
        (SinkError::UnexpectedPosition { expected, actual }).text()
            == "destination advanced: expected next-offset "@ + dec(expected as nat) + ", found "@
            + dec(actual as nat),
        NotifyError::Transport(m).text() == "notify transport: "@ + m@,
        (NotifyError::Exhausted { attempts, last_error: m }).text() == "notify exhausted after "@
            + dec(attempts as nat) + " attempts: "@ + m@,
{
}

/// The words of why a mirror stopped.
pub proof fn law_words_of_mirror_errors(
    source: SourceError,
    sink: SinkError,
    notify: NotifyError,
    expected: u64,
    got: u64,
)
    ensures
        MirrorError::Source(source).text() == source.text(),
        MirrorError::Sink(sink).text() == sink.text(),
        MirrorError::Notify(notify).text() == notify.text(),
        (MirrorError::SourceWentBackwards { expected, got }).text() == "source delivered offset "@
            + dec(got as nat) + ", expected at least "@ + dec(expected as nat)
            + " (went backwards)"@,
        (MirrorError::SourceGapAboveExpected { expected, got }).text()
            == "source delivered offset "@ + dec(got as nat) + ", expected "@ + dec(
            expected as nat,
        ) + " (gap above expected)"@,
        (MirrorError::DestinationDrift { expected, actual: got }).text()
            == "destination drift while idle: expected next-offset "@ + dec(expected as nat)
            + ", found "@ + dec(got as nat),
{
}

/// The words of what is wrong with stored batches, configurations and times
/// of day.
pub proof fn law_words_of_other_errors(m: String, path: String, e: EnvSubstError)
    ensures
        EnvelopeError::Encode(m).text() == "encode: "@ + m@,
        EnvelopeError::Decode(m).text() == "decode: "@ + m@,
        (FsError::CorruptChain { msg: m }).text() == "destination chain is corrupt: "@ + m@,
        (LoadError::Io { path, reason: m }).text() == "reading config file "@ + debug_quoted(path@)
            + ": "@ + m@,
        LoadError::Parse(m).text() == "parsing config: "@ + m@,
        LoadError::Validation(m).text() == "invalid config: "@ + m@,
        LoadError::EnvSubst(e).text() == "env interpolation: "@ + e.text(),
        EnvSubstError::UndefinedVariable(m).text() == "undefined variable "@ + debug_quoted(m@),
        EnvSubstError::Unterminated.text() == "unterminated `${...}` reference"@,
        AtUtcError::Format(m).text() == "at-utc must be HH:MM or HH:MM:SS, got "@ + debug_quoted(m@),
        AtUtcError::Range(m).text()
            == "at-utc out of range (HH 0-23, MM 0-59, SS 0-59), got "@ + debug_quoted(m@),
{
}

/// The words of what is wrong with a payload: its column, the offset of its
/// record, and the reason.
pub proof fn law_words_of_column_faults(
    kind: ColumnType,
    column: Seq<char>,
    offset: u64,
    b: Seq<u8>,
)
    ensures
        !(kind is Bytes) && !vstd::utf8::valid_utf8(b) ==> column_fault(kind, column, offset, Some(b))
            == Some(
            column + " at source offset "@ + dec(offset as nat) + " is not valid UTF-8: "@
                + utf8_fault(b),
        ),
        kind is JsonParseable && vstd::utf8::valid_utf8(b) ==> (json_fault(
            vstd::utf8::decode_utf8(b),
        ) matches Some(e) ==> column_fault(kind, column, offset, Some(b)) == Some(
            column + " at source offset "@ + dec(offset as nat) + " is not parseable JSON: "@ + e,
        )),
{
}

} // verus!
