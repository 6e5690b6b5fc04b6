//! When a sink takes a record, when it stores what it collected, and what
//! a stored snapshot holds, in terms of the settings and the records.
use vstd::prelude::*;
use vstd::utf8::{decode_utf8, encode_utf8, valid_utf8};

use crate::chain::{all_fit, entries};
use crate::column::{column_fault, json_fault, ColumnType};
use crate::envelope::{stored_records, Format};
use crate::filesystem::{
    files_records, headers_size, record_size, records_size, FilesystemSink, FlushPlan,
};
use crate::listing_laws::{
    disjoint, is_stored, law_gapless_chain_is_accepted, law_only_batch_names_give_ranges,
    law_snapshots_may_leave_gaps, names_batch,
};
use crate::record::{records_view, FlushTrigger, HeaderView, RecordView};
use crate::schedule::{later_daily, next_daily};
use crate::snapshot::{
    keyed, law_latest_record_wins, law_untouched_keys_stay, loaded, snapshot_fault,
};

verus! {

// ---- limits --------------------------------------------------------------------

/// Whatever is collected is to be stored once there are as many records as
/// allowed, or as many bytes, or the first of them is as old as allowed,
/// with compaction and without. Where more than one limit is reached, the
/// number of records is told before the bytes, and these before the age.
/// Where nothing is collected nothing is to be stored.
pub proof fn law_any_limit_triggers_a_flush(s: FilesystemSink, now: u64)
    ensures
        ({
            let many = s.buffer@.len() >= s.flush.max_offsets;
            let large = s.buffer_bytes >= s.flush.max_bytes;
            let old = s.buffer_started matches Some(t) && (now >= t + s.flush.max_time_ms
                || s.flush.max_time_ms == 0);
            &&& s.trigger(now) is Some <==> s.buffer@.len() > 0 && (many || large || old)
            &&& s.buffer@.len() > 0 && many ==> s.trigger(now) == Some(FlushTrigger::MaxOffsets)
            &&& s.buffer@.len() > 0 && !many && large ==> s.trigger(now) == Some(
                FlushTrigger::MaxBytes,
            )
            &&& s.buffer@.len() > 0 && !many && !large && old ==> s.trigger(now) == Some(
                FlushTrigger::MaxTime,
            )
        }),
{
}

/// A limit that is reached stays reached: more time, more bytes or more
/// records never take it back.
pub proof fn law_reached_limits_stay_reached(
    a: FilesystemSink,
    b: FilesystemSink,
    now: u64,
    later: u64,
)
    requires
        a.trigger(now) is Some,
        now <= later,
        b.flush == a.flush,
        a.buffer@.len() <= b.buffer@.len(),
        a.buffer_bytes <= b.buffer_bytes,
        a.buffer_started matches Some(t) ==> b.buffer_started == Some(t),
    ensures
        b.trigger(later) is Some,
{
}

/// The bytes of a record are those of its key, its value and its headers,
/// and those of a header are those of its name and its value. Bytes of
/// records, and of headers, add up.
pub proof fn law_bytes_add_up(
    r: RecordView,
    a: Seq<RecordView>,
    b: Seq<RecordView>,
    h: Seq<HeaderView>,
    g: Seq<HeaderView>,
    one: HeaderView,
)
    ensures
        record_size(r) == (if r.key is Some {
            r.key->0.len()
        } else {
            0
        }) + (if r.value is Some {
            r.value->0.len()
        } else {
            0
        }) + headers_size(r.headers),
        headers_size(h + g) == headers_size(h) + headers_size(g),
        headers_size(seq![one]) == encode_utf8(one.key).len() + (if one.value is Some {
            one.value->0.len()
        } else {
            0
        }),
        records_size(a + b) == records_size(a) + records_size(b),
        records_size(seq![r]) == record_size(r),
        records_size(seq![]) == 0,
        headers_size(seq![]) == 0,
{
    lemma_headers_add_up(h, g);
    lemma_records_add_up(a, b);
    assert(seq![one].drop_last() =~= Seq::<HeaderView>::empty());
    assert(seq![r].drop_last() =~= Seq::<RecordView>::empty());
    assert(headers_size(seq![one].drop_last()) == 0);
    assert(records_size(seq![r].drop_last()) == 0);
}

proof fn lemma_headers_add_up(h: Seq<HeaderView>, g: Seq<HeaderView>)
    ensures
        headers_size(h + g) == headers_size(h) + headers_size(g),
    decreases g.len(),
{
    if g.len() == 0 {
        assert(h + g =~= h);
    } else {
        lemma_headers_add_up(h, g.drop_last());
        assert((h + g).drop_last() =~= h + g.drop_last());
        assert((h + g).last() == g.last());
    }
}

proof fn lemma_records_add_up(a: Seq<RecordView>, b: Seq<RecordView>)
    ensures
        records_size(a + b) == records_size(a) + records_size(b),
    decreases b.len(),
{
    if b.len() == 0 {
        assert(a + b =~= a);
    } else {
        lemma_records_add_up(a, b.drop_last());
        assert((a + b).drop_last() =~= a + b.drop_last());
        assert((a + b).last() == b.last());
    }
}

// ---- what comes next ------------------------------------------------------------

/// Without compaction a sink takes only the offset right after all that it
/// stored and collected. With compaction it takes any offset that is not
/// below what it stored and above all that it collected.
pub proof fn law_which_offset_comes_next(s: FilesystemSink, offset: u64)
    requires
        s.wf(),
    ensures
        s.compaction is None ==> (s.in_turn(offset) <==> offset == s.durable_position
            + s.buffer@.len()),
        s.compaction is Some ==> (s.in_turn(offset) <==> offset >= s.durable_position && forall|
            i: int,
        |
            0 <= i < s.buffer@.len() ==> (#[trigger] s.buffer@[i]).source_offset < offset),
        s.compaction is None ==> s.head() == s.durable_position + s.buffer@.len(),
        s.buffer@.len() == 0 ==> s.head() == s.durable_position,
        s.buffer@.len() > 0 ==> s.head() == s.buffer@[s.buffer@.len() - 1].source_offset + 1,
{
    let n = s.buffer@.len() as int;
    if n > 0 {
        assert(s.durable_position <= s.buffer@[n - 1].source_offset);
        if s.compaction is None {
            assert(s.buffer@[n - 1].source_offset == s.durable_position + (n - 1));
        } else if s.head() <= offset {
            assert forall|i: int| 0 <= i < n implies (#[trigger] s.buffer@[i]).source_offset
                < offset by {
                if i < n - 1 {
                    assert(s.buffer@[i].source_offset < s.buffer@[n - 1].source_offset);
                }
            }
        }
    }
}

/// A batch is stored under the offsets that it covers: it starts at what
/// the sink had stored before and ends at the last record that it
/// collected. Without compaction it holds what was collected, in order.
pub proof fn law_planned_batches(s: FilesystemSink, plan: FlushPlan, after: FilesystemSink)
    requires
        s.wf(),
        s.buffer@.len() > 0,
        s.plans(plan, &after),
    ensures
        plan.from == s.durable_position,
        plan.to == s.buffer@[s.buffer@.len() - 1].source_offset,
        plan.count == s.buffer@.len(),
        names_batch(plan.name@, s.format.file_extension(), plan.from, plan.to),
        s.compaction is None ==> plan.records@ == s.buffer@,
{
    law_only_batch_names_give_ranges(
        plan.name@,
        s.format.file_extension(),
        plan.from,
        plan.to,
    );
}

/// With compaction a batch holds, for every key, the last record that was
/// collected with it if that has a value, and nothing if it has none; and
/// for a key without a collected record what the last snapshot held. The
/// records are in the order of their keys, and no key occurs twice.
pub proof fn law_snapshots_hold_the_latest_values(
    s: FilesystemSink,
    plan: FlushPlan,
    after: FilesystemSink,
    key: Seq<char>,
    i: int,
)
    requires
        s.wf(),
        s.buffer@.len() > 0,
        s.compaction is Some,
        s.plans(plan, &after),
    ensures
        0 <= i < s.buffer@.len() && decode_utf8(s.buffer@[i]@.key->0) == key && (forall|j: int|
            i < j < s.buffer@.len() ==> decode_utf8((#[trigger] s.buffer@[j])@.key->0) != key) ==> {
            &&& after.snapshot().dom().contains(key) <==> s.buffer@[i]@.value is Some
            &&& s.buffer@[i]@.value is Some ==> after.snapshot()[key] == s.buffer@[i]@
        },
        (forall|j: int|
            0 <= j < s.buffer@.len() ==> decode_utf8((#[trigger] s.buffer@[j])@.key->0) != key) ==> {
            &&& after.snapshot().dom().contains(key) <==> s.snapshot().dom().contains(key)
            &&& s.snapshot().dom().contains(key) ==> after.snapshot()[key] == s.snapshot()[key]
        },
        forall|k: int|
            0 <= k < plan.records@.len() ==> {
                let r = (#[trigger] plan.records@[k])@;
                &&& r.key is Some
                &&& valid_utf8(r.key->0)
                &&& after.snapshot().dom().contains(decode_utf8(r.key->0))
                &&& after.snapshot()[decode_utf8(r.key->0)] == r
            },
        after.snapshot().dom().contains(key) ==> exists|k: int|
            0 <= k < plan.records@.len() && (#[trigger] plan.records@[k])@ == after.snapshot()[key],
        forall|k: int, l: int|
            0 <= k < l < plan.records@.len() ==> crate::text::text_lt(
                decode_utf8((#[trigger] plan.records@[k])@.key->0),
                decode_utf8((#[trigger] plan.records@[l])@.key->0),
            ),
{
    let rs = records_view(s.buffer@);
    if 0 <= i < s.buffer@.len() && decode_utf8(s.buffer@[i]@.key->0) == key && (forall|j: int|
        i < j < s.buffer@.len() ==> decode_utf8((#[trigger] s.buffer@[j])@.key->0) != key) {
        assert forall|j: int| i < j < rs.len() implies decode_utf8((#[trigger] rs[j]).key->0)
            != decode_utf8(rs[i].key->0) by {
            assert(rs[j] == s.buffer@[j]@);
        }
        law_latest_record_wins(s.snapshot(), rs, i);
    }
    if forall|j: int|
        0 <= j < s.buffer@.len() ==> decode_utf8((#[trigger] s.buffer@[j])@.key->0) != key {
        assert forall|j: int| 0 <= j < rs.len() implies decode_utf8((#[trigger] rs[j]).key->0)
            != key by {
            assert(rs[j] == s.buffer@[j]@);
        }
        law_untouched_keys_stay(s.snapshot(), rs, key);
    }
    let pairs = after.view->0.entries();
    let out = records_view(plan.records@);
    assert(out.len() == pairs.len());
    assert forall|a: int, b: int| 0 <= a < b < pairs.len() implies pairs[a].0 != pairs[b].0 by {
        assert(crate::text::text_lt(pairs[a].0, pairs[b].0));
        crate::text::lemma_text_lt_total(pairs[a].0, pairs[b].0);
    }
    assert forall|k: int| 0 <= k < plan.records@.len() implies {
        let r = (#[trigger] plan.records@[k])@;
        &&& r == pairs[k].1
        &&& r.key is Some
        &&& valid_utf8(r.key->0)
        &&& decode_utf8(r.key->0) == pairs[k].0
        &&& after.snapshot().dom().contains(decode_utf8(r.key->0))
        &&& after.snapshot()[decode_utf8(r.key->0)] == r
    } by {
        assert(out[k] == plan.records@[k]@);
        assert(out[k] == pairs[k].1);
        assert(keyed(pairs));
        crate::assoc::lemma_lookup_at(pairs, k);
    }
    if after.snapshot().dom().contains(key) {
        let k = crate::assoc::place_of(pairs, key);
        assert(pairs[k].0 == key);
        crate::assoc::lemma_lookup_at(pairs, k);
        assert(plan.records@[k]@ == pairs[k].1);
    }
}

/// Once a batch is stored, the sink stands right after it and counts
/// nothing as collected.
pub proof fn law_stored_batches_move_the_sink(s: FilesystemSink, to: u64)
    requires
        to < u64::MAX,
    ensures
        s.flushed(to).durable_position == to + 1,
        s.flushed(to).stored_position == to + 1,
        s.flushed(to).buffer_bytes == 0,
        s.flushed(to).buffer_started is None,
        s.flushed(to).buffer == s.buffer,
        s.flushed(to).view == s.view,
        s.flushed(to).flush == s.flush,
        s.flushed(to).next_daily_unix == s.next_daily_unix,
{
}

/// Without compaction a directory shows the position `p` where its batches
/// hold every offset below it exactly once, and no other. With compaction
/// it shows the position right after the last batch, gaps or not, where no
/// two hold the same offset.
pub proof fn law_what_a_directory_shows(s: FilesystemSink, names: Seq<Seq<char>>, p: int)
    requires
        0 <= p,
        entries(names, s.format.file_extension()) is Ok,
        all_fit(entries(names, s.format.file_extension())->Ok_0),
        disjoint(entries(names, s.format.file_extension())->Ok_0),
    ensures
        ({
            let b = entries(names, s.format.file_extension())->Ok_0;
            &&& s.compaction is None && (forall|i: int|
                0 <= i < b.len() ==> (#[trigger] b[i]).to < p) && (forall|o: int|
                0 <= o < p ==> #[trigger] is_stored(b, o)) ==> s.shown(names) == Ok::<
                int,
                Seq<char>,
            >(p)
            &&& s.compaction is Some && (forall|i: int|
                0 <= i < b.len() ==> (#[trigger] b[i]).to < p) && (if b.len() == 0 {
                p == 0
            } else {
                exists|i: int| 0 <= i < b.len() && (#[trigger] b[i]).to + 1 == p
            }) ==> s.shown(names) == Ok::<int, Seq<char>>(p)
        }),
{
    let ext = s.format.file_extension();
    let b = entries(names, ext)->Ok_0;
    if s.compaction is None {
        if (forall|i: int| 0 <= i < b.len() ==> (#[trigger] b[i]).to < p) && (forall|o: int|
            0 <= o < p ==> #[trigger] is_stored(b, o)) {
            law_gapless_chain_is_accepted(names, ext, p);
        }
    } else {
        law_snapshots_may_leave_gaps(names, ext);
    }
}

/// A daily boundary is due from its time on, not before, and never where
/// there is none.
pub proof fn law_when_the_daily_boundary_is_due(s: FilesystemSink, now: u64)
    ensures
        s.next_daily_unix is None ==> !s.daily_due(now),
        s.next_daily_unix matches Some(at) ==> (s.daily_due(now) <==> at <= now),
{
}

/// The daily boundary after `now` is at the given seconds after a midnight
/// and in the future, and a boundary that is still ahead stays.
pub proof fn law_daily_boundaries(target: int, at: int, now: int)
    requires
        0 <= target,
        0 <= now,
    ensures
        now < next_daily(target, now),
        (next_daily(target, now) - target) % 86400 == 0,
        next_daily(target, now) <= now + 86400 || next_daily(target, now) - target <= now,
        now < at ==> later_daily(at, now) == at,
{
    let d = now / 86400;
    assert(d * 86400 <= now < d * 86400 + 86400);
    assert((d * 86400) % 86400 == 0);
    assert((d * 86400 + 86400) % 86400 == 0);
}

// ---- stored records -------------------------------------------------------------

/// The records of stored files are those of each file, one after the
/// other, and the first file that cannot be read is an error.
pub proof fn law_files_are_read_one_by_one(
    format: Format,
    a: Seq<(String, Vec<u8>)>,
    b: Seq<(String, Vec<u8>)>,
    f: (String, Vec<u8>),
)
    ensures
        files_records(format, seq![]) == Ok::<Seq<RecordView>, Seq<char>>(seq![]),
        stored_records(format, f.1@) matches Ok(rs) ==> files_records(format, seq![f]) == Ok::<
            Seq<RecordView>,
            Seq<char>,
        >(rs),
        stored_records(format, f.1@) is Err ==> files_records(format, seq![f]) is Err,
        files_records(format, a) is Err ==> files_records(format, a + b) == files_records(format, a),
        files_records(format, a) is Ok && files_records(format, b) is Ok ==> files_records(
            format,
            a + b,
        ) == Ok::<Seq<RecordView>, Seq<char>>(
            files_records(format, a)->Ok_0 + files_records(format, b)->Ok_0,
        ),
        files_records(format, a) is Ok && files_records(format, b) is Err ==> files_records(
            format,
            a + b,
        ) == files_records(format, b),
    decreases b.len(),
{
    let none = Seq::<(String, Vec<u8>)>::empty();
    assert(seq![f].drop_last() =~= none);
    assert(files_records(format, none) == Ok::<Seq<RecordView>, Seq<char>>(seq![]));
    if let Ok(rs) = stored_records(format, f.1@) {
        assert(Seq::<RecordView>::empty() + rs =~= rs);
    }
    if b.len() == 0 {
        assert(a + b =~= a);
        assert(b =~= none);
        if let Ok(rs) = files_records(format, a) {
            assert(rs + Seq::<RecordView>::empty() =~= rs);
        }
    } else {
        let init = b.drop_last();
        law_files_are_read_one_by_one(format, a, init, f);
        assert((a + b).drop_last() =~= a + init);
        assert((a + b).last() == b.last());
        if files_records(format, a) is Ok && files_records(format, init) is Ok {
            if let Ok(rs) = stored_records(format, b.last().1@) {
                let x = files_records(format, a)->Ok_0;
                let y = files_records(format, init)->Ok_0;
                assert(x + y + rs =~= x + (y + rs));
            }
        }
    }
}

/// The last stored record of each key is the one that is loaded, and no
/// other key is.
pub proof fn law_loaded_snapshots(rs: Seq<RecordView>, key: Seq<char>, i: int)
    ensures
        0 <= i < rs.len() && decode_utf8(rs[i].key->0) == key && (forall|j: int|
            i < j < rs.len() ==> decode_utf8((#[trigger] rs[j]).key->0) != key) ==> loaded(
            rs,
        ).dom().contains(key) && loaded(rs)[key] == rs[i],
        (forall|j: int| 0 <= j < rs.len() ==> decode_utf8((#[trigger] rs[j]).key->0) != key)
            ==> !loaded(rs).dom().contains(key),
    decreases rs.len(),
{
    if rs.len() > 0 {
        let init = rs.drop_last();
        law_loaded_snapshots(init, key, i);
        let last = rs.len() - 1;
        if 0 <= i < last && (forall|j: int|
            i < j < rs.len() ==> decode_utf8((#[trigger] rs[j]).key->0) != key) {
            assert(decode_utf8(rs[last].key->0) != key);
            assert forall|j: int| i < j < init.len() implies decode_utf8(
                (#[trigger] init[j]).key->0,
            ) != key by {
                assert(init[j] == rs[j]);
            }
        }
        if forall|j: int| 0 <= j < rs.len() ==> decode_utf8((#[trigger] rs[j]).key->0) != key {
            assert(decode_utf8(rs[last].key->0) != key);
            assert forall|j: int| 0 <= j < init.len() implies decode_utf8(
                (#[trigger] init[j]).key->0,
            ) != key by {
                assert(init[j] == rs[j]);
            }
        }
    }
}

/// A stored snapshot is at fault exactly where one of its records has no
/// key, or a key that is no text.
pub proof fn law_faults_of_snapshots(path: Seq<char>, rs: Seq<RecordView>)
    ensures
        snapshot_fault(path, rs) is Some <==> exists|i: int|
            0 <= i < rs.len() && ((#[trigger] rs[i]).key is None || !valid_utf8(rs[i].key->0)),
    decreases rs.len(),
{
    if rs.len() > 0 {
        let init = rs.drop_last();
        law_faults_of_snapshots(path, init);
        if snapshot_fault(path, init) is Some {
            let i = choose|i: int|
                0 <= i < init.len() && ((#[trigger] init[i]).key is None || !valid_utf8(
                    init[i].key->0,
                ));
            assert(rs[i] == init[i]);
        } else {
            assert(rs[rs.len() - 1] == rs.last());
            if exists|i: int|
                0 <= i < rs.len() && ((#[trigger] rs[i]).key is None || !valid_utf8(
                    rs[i].key->0,
                )) {
                let i = choose|i: int|
                    0 <= i < rs.len() && ((#[trigger] rs[i]).key is None || !valid_utf8(
                        rs[i].key->0,
                    ));
                if i < init.len() {
                    assert(init[i].key is None || !valid_utf8(init[i].key->0));
                }
            }
        }
    }
}

/// A column of bytes takes any payload; one of text or of JSON takes text;
/// one of parsed JSON takes text that parses. A missing payload is always
/// taken.
pub proof fn law_what_columns_take(
    kind: ColumnType,
    column: Seq<char>,
    offset: u64,
    payload: Option<Seq<u8>>,
)
    ensures
        payload is None ==> column_fault(kind, column, offset, payload) is None,
        kind is Bytes ==> column_fault(kind, column, offset, payload) is None,
        kind is Utf8 || kind is Json ==> (payload matches Some(b) ==> (column_fault(
            kind,
            column,
            offset,
            payload,
        ) is None <==> valid_utf8(b))),
        kind is JsonParseable ==> (payload matches Some(b) ==> (column_fault(
            kind,
            column,
            offset,
            payload,
        ) is None <==> valid_utf8(b) && json_fault(decode_utf8(b)) is None)),
{
}

/// A sink counts exactly what it has collected where its bytes are those of
/// the collected records and it has a start exactly where there are some.
pub proof fn law_when_a_sink_counts_exactly(s: FilesystemSink)
    ensures
        s.settled() <==> s.buffer_bytes == records_size(records_view(s.buffer@)) && (
        s.buffer_started is Some <==> s.buffer@.len() > 0),
{
}

} // verus!
