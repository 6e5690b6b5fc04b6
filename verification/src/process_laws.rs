//! What a process makes of its configuration and of what brokers say,
//! spelled out.
use vstd::prelude::*;
use vstd::utf8::encode_utf8;

use crate::acks::{is_furthest, later, number_or, CommitLoop, DestAckSlot};
use crate::cache::{CacheCall, CacheView};
use crate::column::{column_fault, ColumnType};
use crate::config::{self, Compaction, Destination, DestinationFormat, Mirror};
use crate::filesystem::CompactionMode;
use crate::kafka::{as_unsigned, clamped, polled, record_fault, StagedOffset, TimestampMode};
use crate::record::RecordView;
use crate::supervisor::{
    column_type_of, comma_separated, compaction_of, compression_of, destination_count,
    disabled_count, format_of, kind_or_default, lag_of, left_aligned, mirror_line, mirror_lines,
    name_width, right_aligned, row_line, row_lines, signed_partition, summary_line,
    timestamp_mode_of, type_label, type_list, StatusRow,
};
use crate::text::{debug_quoted, dec, parse_unsigned, signed_dec};

verus! {

// ---- acknowledgements -------------------------------------------------------------

/// The later of two offsets is one of them and not below either.
pub proof fn law_later(a: u64, b: u64)
    ensures
        a <= later(a, b),
        b <= later(a, b),
        later(a, b) == a || later(a, b) == b,
{
}

/// The furthest destination: none is further, and it is one of them. There
/// is exactly one such offset, and it is zero where none has anything done.
pub proof fn law_furthest(m: u64, n: u64, d: Seq<DestAckSlot>)
    requires
        is_furthest(m, d),
    ensures
        forall|i: int| 0 <= i < d.len() ==> (#[trigger] d[i]).flushed_through <= m,
        d.len() == 0 ==> m == 0,
        d.len() > 0 ==> exists|i: int| 0 <= i < d.len() && (#[trigger] d[i]).flushed_through == m,
        is_furthest(n, d) ==> m == n,
{
    if m == 0 && d.len() > 0 {
        assert(d[0].flushed_through == m);
    }
    if is_furthest(n, d) {
        if m > 0 {
            let i = choose|i: int| 0 <= i < d.len() && (#[trigger] d[i]).flushed_through == m;
            assert(d[i].flushed_through <= n);
        }
        if n > 0 {
            let i = choose|i: int| 0 <= i < d.len() && (#[trigger] d[i]).flushed_through == n;
            assert(d[i].flushed_through <= m);
        }
    }
}

/// A setting that is a number counts; any other, and a missing one, gives
/// the default.
pub proof fn law_settings(setting: Option<&str>, default: nat)
    ensures
        setting is None ==> number_or(setting, default) == default,
        setting matches Some(s) ==> (match parse_unsigned(s@, u64::MAX as nat) {
            Some(n) => number_or(setting, default) == n,
            None => number_or(setting, default) == default,
        }),
{
}

// ---- brokers ----------------------------------------------------------------------

/// A record goes to Kafka exactly where its key and its value are what they
/// must be. The key is looked at first.
pub proof fn law_what_goes_to_kafka(keys: ColumnType, values: ColumnType, r: RecordView)
    ensures
        record_fault(keys, values, r) is None <==> column_fault(
            keys,
            "key"@,
            r.source_offset,
            r.key,
        ) is None && column_fault(values, "value"@, r.source_offset, r.value) is None,
        column_fault(keys, "key"@, r.source_offset, r.key) matches Some(f) ==> record_fault(
            keys,
            values,
            r,
        ) == Some(f),
        column_fault(keys, "key"@, r.source_offset, r.key) is None ==> record_fault(keys, values, r)
            == column_fault(values, "value"@, r.source_offset, r.value),
{
}

/// Numbers of brokers: a signed offset keeps its bits as an unsigned one,
/// an unsigned partition as a signed one, and an end below zero counts as
/// zero.
pub proof fn law_numbers_of_brokers(n: i64, p: u32)
    ensures
        0 <= as_unsigned(n) <= u64::MAX,
        (as_unsigned(n) - n) % 0x1_0000_0000_0000_0000 == 0,
        i32::MIN <= signed_partition(p) <= i32::MAX,
        (p - signed_partition(p)) % 0x1_0000_0000 == 0,
        0 <= clamped(n),
        n <= clamped(n),
        clamped(n) == n || clamped(n) == 0,
{
}

/// A look at a source tells the cache where the source ends, as far as that
/// was found out, and then whether the consumer has its partition, as far
/// as that was. What was not found out is not told.
pub proof fn law_what_a_look_at_the_source_tells(
    c: CacheView,
    name: Seq<char>,
    high: i64,
    assigned: bool,
)
    ensures
        polled(c, name, None, None) == c,
        high >= 0 ==> polled(c, name, Some(high), None) == c.after(
            CacheCall::EndOffset { name, end: high as u64 },
        ),
        high < 0 ==> polled(c, name, Some(high), None) == c.after(
            CacheCall::EndOffset { name, end: 0 },
        ),
        polled(c, name, None, Some(assigned)) == c.after(CacheCall::Assignment { name, assigned }),
        polled(c, name, Some(high), Some(assigned)) == polled(c, name, Some(high), None).after(
            CacheCall::Assignment { name, assigned },
        ),
{
}

// ---- settings ---------------------------------------------------------------------

/// Each setting of the configuration means the one of the same name, and
/// what is not set means the default: text columns, and the timestamps of
/// the source.
pub proof fn law_what_settings_mean(
    f: DestinationFormat,
    c: config::ParquetCompression,
    k: config::ColumnType,
    column: config::ColumnConfig,
    t: config::TimestampMode,
    d: Destination,
)
    ensures
        f is Parquet <==> format_of(f) is Parquet,
        f is Ndjson <==> format_of(f) is Ndjson,
        c is Zstd1 <==> compression_of(c) is Zstd1,
        c is Zstd3 <==> compression_of(c) is Zstd3,
        c is Snappy <==> compression_of(c) is Snappy,
        c is Lz4 <==> compression_of(c) is Lz4,
        c is Uncompressed <==> compression_of(c) is Uncompressed,
        k is Bytes <==> column_type_of(k) is Bytes,
        k is Utf8 <==> column_type_of(k) is Utf8,
        k is Json <==> column_type_of(k) is Json,
        k is JsonParseable <==> column_type_of(k) is JsonParseable,
        kind_or_default(None) == ColumnType::Utf8,
        kind_or_default(Some(column)) == column_type_of(column.kind),
        timestamp_mode_of(None) == TimestampMode::Source,
        t is Source ==> timestamp_mode_of(Some(t)) == TimestampMode::Source,
        t is Destination ==> timestamp_mode_of(Some(t)) == TimestampMode::Destination,
        compaction_of(None) is None,
        compaction_of(Some(Compaction::Log)) == Some(CompactionMode::Log),
        d is Kafka <==> type_label(d) == "kafka"@,
        d is Filesystem <==> type_label(d) == "filesystem"@,
        d is S3 <==> type_label(d) == "s3"@,
{
    reveal_strlit("kafka");
    reveal_strlit("filesystem");
    reveal_strlit("s3");
    assert("kafka"@.len() == 5);
    assert("filesystem"@.len() == 10);
    assert("s3"@.len() == 2);
}

// ---- reports ----------------------------------------------------------------------

/// A destination is as many offsets behind as lie between it and the end of
/// its source, and none where it is at the end or ahead.
pub proof fn law_how_far_behind(high: i64, next: u64)
    ensures
        0 <= lag_of(high, next) <= i64::MAX,
        next <= i64::MAX && next <= high ==> lag_of(high, next) == high - next,
        next <= i64::MAX && high <= next ==> lag_of(high, next) == 0,
{
}

/// A text in a column: the text and then spaces up to the width, or spaces
/// and then the text. A text that is too wide stays whole.
pub proof fn law_columns_are_filled_with_spaces(s: Seq<char>, width: int)
    ensures
        ({
            let l = left_aligned(s, width);
            let r = right_aligned(s, width);
            let n = if s.len() < width {
                width
            } else {
                s.len() as int
            };
            &&& l.len() == n
            &&& r.len() == n
            &&& l.take(s.len() as int) == s
            &&& r.skip(n - s.len()) == s
            &&& forall|i: int| s.len() <= i < n ==> #[trigger] l[i] == ' '
            &&& forall|i: int| 0 <= i < n - s.len() ==> #[trigger] r[i] == ' '
        }),
{
    let l = left_aligned(s, width);
    let r = right_aligned(s, width);
    assert(l.take(s.len() as int) =~= s);
    assert(r.skip(r.len() - s.len()) =~= s);
}

/// A line of the status table has the name, then both ends and how far they
/// are apart, each at the end of its column; and the error instead where
/// there is one. What is not known is left blank.
pub proof fn law_lines_of_the_status_table(width: int, r: StatusRow)
    ensures
        r.error matches Some(e) ==> row_line(width, r) == left_aligned(r.name@, width)
            + "  error: "@ + e@ + "\n"@,
        r.error is None ==> row_line(width, r) == left_aligned(r.name@, width) + "  "@
            + right_aligned(
            if r.source_high is Some {
                signed_dec(r.source_high->0 as int)
            } else {
                ""@
            },
            14,
        ) + "  "@ + right_aligned(
            if r.dest_next is Some {
                dec(r.dest_next->0 as nat)
            } else {
                ""@
            },
            14,
        ) + "  "@ + right_aligned(
            if r.source_high is Some && r.dest_next is Some {
                signed_dec(lag_of(r.source_high->0, r.dest_next->0))
            } else {
                ""@
            },
            10,
        ) + "\n"@,
{
}

/// The table has a line for each row, in order, and its first column is as
/// wide as its heading and every name.
pub proof fn law_rows_of_the_status_table(
    width: int,
    a: Seq<StatusRow>,
    b: Seq<StatusRow>,
    r: StatusRow,
)
    ensures
        row_lines(width, seq![]) == Seq::<char>::empty(),
        row_lines(width, seq![r]) == row_line(width, r),
        row_lines(width, a + b) == row_lines(width, a) + row_lines(width, b),
        6 <= name_width(a),
        forall|i: int|
            0 <= i < a.len() ==> encode_utf8((#[trigger] a[i]).name@).len() <= name_width(a),
        name_width(a) == 6 || exists|i: int|
            0 <= i < a.len() && encode_utf8((#[trigger] a[i]).name@).len() == name_width(a),
{
    lemma_row_lines_add(width, a, b);
    lemma_name_width(a);
    assert(seq![r].drop_last() =~= Seq::<StatusRow>::empty());
    assert(row_lines(width, seq![r].drop_last()) =~= Seq::<char>::empty());
    assert(row_lines(width, seq![r]) =~= row_line(width, r));
}

proof fn lemma_row_lines_add(width: int, a: Seq<StatusRow>, b: Seq<StatusRow>)
    ensures
        row_lines(width, a + b) == row_lines(width, a) + row_lines(width, b),
    decreases b.len(),
{
    if b.len() == 0 {
        assert(a + b =~= a);
        assert(row_lines(width, a) + row_lines(width, b) =~= row_lines(width, a));
    } else {
        lemma_row_lines_add(width, a, b.drop_last());
        assert((a + b).drop_last() =~= a + b.drop_last());
        assert((a + b).last() == b.last());
        assert(row_lines(width, a + b) =~= row_lines(width, a) + row_lines(width, b));
    }
}

proof fn lemma_name_width(a: Seq<StatusRow>)
    ensures
        6 <= name_width(a),
        forall|i: int|
            0 <= i < a.len() ==> encode_utf8((#[trigger] a[i]).name@).len() <= name_width(a),
        name_width(a) == 6 || exists|i: int|
            0 <= i < a.len() && encode_utf8((#[trigger] a[i]).name@).len() == name_width(a),
    decreases a.len(),
{
    if a.len() > 0 {
        let init = a.drop_last();
        lemma_name_width(init);
        assert forall|i: int| 0 <= i < a.len() implies encode_utf8((#[trigger] a[i]).name@).len()
            <= name_width(a) by {
            if i < init.len() {
                assert(encode_utf8(init[i].name@).len() <= name_width(init));
            }
        }
        if name_width(a) == name_width(init) && name_width(a) != 6 {
            let i = choose|i: int|
                0 <= i < init.len() && encode_utf8((#[trigger] init[i]).name@).len() == name_width(
                    init,
                );
            assert(encode_utf8(a[i].name@).len() == name_width(a));
        } else if name_width(a) != 6 {
            assert(encode_utf8(a[a.len() - 1].name@).len() == name_width(a));
        }
    }
}

/// A report on a configuration counts all mirrors, those that are not run
/// and all destinations, and has a line for each mirror, in order.
pub proof fn law_reports_on_configurations(a: Seq<Mirror>, b: Seq<Mirror>, m: Mirror)
    ensures
        destination_count(a + b) == destination_count(a) + destination_count(b),
        destination_count(seq![m]) == m.destinations@.len(),
        disabled_count(a + b) == disabled_count(a) + disabled_count(b),
        disabled_count(seq![m]) == (if m.enabled == Some(false) {
            1nat
        } else {
            0nat
        }),
        mirror_lines(a + b) == mirror_lines(a) + mirror_lines(b),
        mirror_lines(seq![m]) == mirror_line(m),
        destination_count(seq![]) == 0,
        disabled_count(seq![]) == 0,
        mirror_lines(seq![]) == Seq::<char>::empty(),
        disabled_count(a) == 0 ==> summary_line(a) == "OK: "@ + dec(a.len()) + " mirror(s), "@ + dec(
            destination_count(a),
        ) + " destination(s) total\n"@,
        disabled_count(a) > 0 ==> summary_line(a) == "OK: "@ + dec(a.len()) + " mirror(s) ("@ + dec(
            (a.len() - disabled_count(a)) as nat,
        ) + " enabled, "@ + dec(disabled_count(a)) + " disabled), "@ + dec(destination_count(a))
            + " destination(s) total\n"@,
        m.enabled == Some(false) ==> mirror_line(m) == "  mirror "@ + debug_quoted(m.name@)
            + " [DISABLED]"@ + ": destinations = ["@ + type_list(m.destinations@) + "]\n"@,
        m.enabled != Some(false) ==> mirror_line(m) == "  mirror "@ + debug_quoted(m.name@)
            + ": destinations = ["@ + type_list(m.destinations@) + "]\n"@,
{
    lemma_counts_add(a, b);
    let none = Seq::<Mirror>::empty();
    assert(seq![m].drop_last() =~= none);
    assert(destination_count(none) == 0);
    assert(disabled_count(none) == 0);
    assert(mirror_lines(none) =~= Seq::<char>::empty());
    assert(mirror_lines(seq![m]) =~= mirror_line(m));
    if m.enabled != Some(false) {
        reveal_strlit("");
        assert(""@ =~= Seq::<char>::empty());
        assert("  mirror "@ + debug_quoted(m.name@) + ""@ =~= "  mirror "@ + debug_quoted(m.name@));
    }
}

proof fn lemma_counts_add(a: Seq<Mirror>, b: Seq<Mirror>)
    ensures
        destination_count(a + b) == destination_count(a) + destination_count(b),
        disabled_count(a + b) == disabled_count(a) + disabled_count(b),
        mirror_lines(a + b) == mirror_lines(a) + mirror_lines(b),
    decreases b.len(),
{
    if b.len() == 0 {
        assert(a + b =~= a);
        assert(mirror_lines(a) + mirror_lines(b) =~= mirror_lines(a));
    } else {
        lemma_counts_add(a, b.drop_last());
        assert((a + b).drop_last() =~= a + b.drop_last());
        assert((a + b).last() == b.last());
        assert(mirror_lines(a + b) =~= mirror_lines(a) + mirror_lines(b));
    }
}

/// Lists of types, and of texts, have a comma between each two, and none at
/// either end.
pub proof fn law_lists_are_separated_by_commas(
    ds: Seq<Destination>,
    d: Destination,
    ts: Seq<Seq<char>>,
    t: Seq<char>,
)
    ensures
        type_list(seq![]) == Seq::<char>::empty(),
        type_list(seq![d]) == type_label(d),
        ds.len() > 0 ==> type_list(ds.push(d)) == type_list(ds) + ", "@ + type_label(d),
        comma_separated(seq![]) == Seq::<char>::empty(),
        comma_separated(seq![t]) == t,
        ts.len() > 0 ==> comma_separated(ts.push(t)) == comma_separated(ts) + ","@ + t,
{
    assert(ds.push(d).drop_last() =~= ds);
    assert(ts.push(t).drop_last() =~= ts);
}

/// Nothing is committed while nothing is done, nor what was committed last.
/// Anything else is.
pub proof fn law_what_is_committed(c: CommitLoop, offset: u64)
    ensures
        c.to_commit(0) is None,
        c.to_commit(c.last_committed) is None,
        offset > 0 && offset != c.last_committed ==> c.to_commit(offset) == Some(offset),
{
}

/// An offset is handed over for committing once: only where it is higher
/// than every one before, and again only where that failed. What was handed
/// over never goes back.
pub proof fn law_offsets_are_handed_over_once(s: StagedOffset, through: u64, other: u64, ok: bool)
    ensures
        s.is_higher(through) <==> s.last < through,
        s.last <= s.after(through, ok).last,
        s.is_higher(through) && other <= through ==> !s.after(through, true).is_higher(other),
        s.is_higher(through) && other > through ==> s.after(through, true).is_higher(other),
        s.after(through, false) == s,
        !s.is_higher(through) ==> s.after(through, ok) == s,
{
}

} // verus!
