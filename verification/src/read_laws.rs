//! What readers of the cache see, in terms of the records that were
//! applied and of what was said about their mirror.
use vstd::prelude::*;
use vstd::utf8::{decode_utf8, encode_utf8, valid_utf8};

use crate::assoc::{as_map, has_key, lemma_lookup_at, lookup, place_of, unique_keys};
use crate::cache::{
    partition_lt, row_of, CacheCall, CacheView, SlotView, StatusView,
};
use crate::http::{
    answers, byte_lines, offset_json, offsets_json, tells_offsets, text_lines, HttpResponse,
    ReadRequest,
};
use crate::json::{json_bytes, Json};
use crate::record::RecordView;
use crate::text::{dec, text_lt};

verus! {

// ---- records -------------------------------------------------------------------

/// Whether `tp` is the record's partition: its topic, and its number as an
/// unsigned one of the same width.
pub open spec fn is_partition_of(tp: (Seq<char>, u32), r: RecordView) -> bool {
    tp.0 == r.topic && (tp.1 - r.partition) % 0x1_0000_0000 == 0
}

/// Whether some entry has this key and this value.
pub open spec fn holds_entry(s: SlotView, key: Seq<char>, value: Seq<u8>) -> bool {
    exists|i: int| 0 <= i < s.entries.len() && #[trigger] s.entries[i] == (key, value)
}

/// Whether some entry has this key.
pub open spec fn holds_key(s: SlotView, key: Seq<char>) -> bool {
    exists|i: int| 0 <= i < s.entries.len() && (#[trigger] s.entries[i]).0 == key
}

proof fn lemma_partition(tp: (Seq<char>, u32), r: RecordView)
    requires
        is_partition_of(tp, r),
    ensures
        tp == (r.topic, crate::cache::partition_id(r.partition)),
{
    let p = crate::cache::partition_id(r.partition);
    assert((p - r.partition) % 0x1_0000_0000 == 0);
    assert(p == tp.1) by {
        let d = tp.1 - p;
        assert(d % 0x1_0000_0000 == 0) by {
            let x = tp.1 - r.partition;
            let y = p - r.partition;
            assert(d == x - y);
            let a = x / 0x1_0000_0000;
            let b = y / 0x1_0000_0000;
            assert(x == 0x1_0000_0000 * a && y == 0x1_0000_0000 * b);
            assert(d == 0x1_0000_0000 * (a - b));
        }
        assert(-0x1_0000_0000 < d < 0x1_0000_0000);
    }
}

/// After a record with a text key that is newer than what was applied in
/// its partition, with or without a value: the key has the record's value,
/// or is gone where the record has none; every other key has what it had;
/// the partition stands at the record's offset and every other where it
/// stood; and the mirror was applied up to the record. The status is then
/// the one that is called for, and nothing else changes.
pub proof fn law_newer_records_are_applied(
    s: SlotView,
    r: RecordView,
    tolerance: u64,
    tp: (Seq<char>, u32),
    other: Seq<char>,
    value: Seq<u8>,
)
    requires
        unique_keys(s.entries),
        is_partition_of(tp, r),
        s.offsets.dom().contains(tp) ==> s.offsets[tp] < r.source_offset,
        r.key matches Some(k) && valid_utf8(k) && other != decode_utf8(k),
        r.source_offset < u64::MAX,
    ensures
        ({
            let key = decode_utf8(r.key->0);
            let a = s.applied(r, tolerance);
            &&& r.value matches Some(v) ==> holds_entry(a, key, v)
            &&& r.value is None ==> !holds_key(a, key)
            &&& r.value matches Some(v) ==> (holds_entry(a, key, value) <==> value == v)
            &&& holds_entry(a, other, value) <==> holds_entry(s, other, value)
            &&& a.offsets == s.offsets.insert(tp, r.source_offset)
            &&& s.last_applied <= a.last_applied
            &&& r.source_offset < a.last_applied
            &&& a.last_applied == s.last_applied || a.last_applied == r.source_offset + 1
            &&& a.bootstrap_hwm == s.bootstrap_hwm
            &&& a.suppression_threshold == s.suppression_threshold
            &&& a.topic == s.topic
            &&& a.partition == s.partition
            &&& a.broker_end == s.broker_end
            &&& a.assigned == s.assigned
            &&& a.destination_lag == s.destination_lag
            &&& is_current(a, tolerance)
        }),
{
    lemma_partition(tp, r);
    let key = decode_utf8(r.key->0);
    let a = s.applied(r, tolerance);
    crate::cache::law_reads_see_the_latest_value(s, r, tolerance, other);
    lemma_entries(a, key, value);
    lemma_entries(a, other, value);
    lemma_entries(s, other, value);
    if let Some(v) = r.value {
        lemma_entries(a, key, v);
    }
}

proof fn lemma_entries(s: SlotView, key: Seq<char>, value: Seq<u8>)
    requires
        unique_keys(s.entries),
    ensures
        holds_entry(s, key, value) <==> lookup(s.entries, key) == Some(value),
        holds_key(s, key) <==> lookup(s.entries, key) is Some,
{
    if holds_entry(s, key, value) {
        let i = choose|i: int| 0 <= i < s.entries.len() && #[trigger] s.entries[i] == (key, value);
        assert(s.entries[i].0 == key);
        lemma_lookup_at(s.entries, i);
    }
    if lookup(s.entries, key) == Some(value) {
        let p = place_of(s.entries, key);
        assert(s.entries[p].0 == key);
        assert(s.entries[p] == (key, value));
    }
    if holds_key(s, key) {
        let i = choose|i: int| 0 <= i < s.entries.len() && (#[trigger] s.entries[i]).0 == key;
        assert(s.entries[i].0 == key);
    }
}

/// A record that is not newer than what was applied in its partition
/// changes nothing at all.
pub proof fn law_older_records_change_nothing(
    s: SlotView,
    r: RecordView,
    tolerance: u64,
    tp: (Seq<char>, u32),
)
    requires
        is_partition_of(tp, r),
        s.offsets.dom().contains(tp),
        r.source_offset <= s.offsets[tp],
    ensures
        s.applied(r, tolerance) == s,
{
    lemma_partition(tp, r);
}

/// A newer record without a key, or with one that is no text, moves the
/// offset of its partition and nothing else.
pub proof fn law_records_without_text_keys_move_the_offset(
    s: SlotView,
    r: RecordView,
    tolerance: u64,
    tp: (Seq<char>, u32),
)
    requires
        is_partition_of(tp, r),
        s.offsets.dom().contains(tp) ==> s.offsets[tp] < r.source_offset,
        r.key is None || !valid_utf8(r.key->0),
    ensures
        s.applied(r, tolerance) == (SlotView {
            offsets: s.offsets.insert(tp, r.source_offset),
            ..s
        }),
{
    lemma_partition(tp, r);
}

/// A key that is overwritten keeps its place in the listing and a new one
/// comes last.
pub proof fn law_places_of_keys(
    s: SlotView,
    r: RecordView,
    tolerance: u64,
    tp: (Seq<char>, u32),
    i: int,
)
    requires
        unique_keys(s.entries),
        is_partition_of(tp, r),
        s.offsets.dom().contains(tp) ==> s.offsets[tp] < r.source_offset,
        r.key matches Some(k) && valid_utf8(k),
        r.value is Some,
        0 <= i < s.entries.len(),
    ensures
        ({
            let key = decode_utf8(r.key->0);
            let a = s.applied(r, tolerance);
            &&& a.entries.len() == s.entries.len() + (if holds_key(s, key) {
                0int
            } else {
                1int
            })
            &&& a.entries[i].0 == s.entries[i].0
            &&& !holds_key(s, key) ==> a.entries.last() == (key, r.value->0)
        }),
{
    lemma_partition(tp, r);
    let key = decode_utf8(r.key->0);
    lemma_entries(s, key, r.value->0);
}

// ---- status ---------------------------------------------------------------------

/// What a status says, and which comes first: a lost partition; then a
/// mirror that was not yet applied up to where its source stood at startup;
/// then a destination that is reported behind; then a source that is more
/// than the tolerance ahead. Without any of these the mirror is ready.
pub proof fn law_what_a_status_says(s: SlotView, tolerance: u64)
    ensures
        ({
            let a = s.refreshed(tolerance);
            &&& a == (SlotView { status: a.status, ..s })
            &&& !s.assigned ==> a.status == (StatusView::SourceUnassigned {
                topic: s.topic,
                partition: s.partition,
            })
            &&& s.assigned && s.last_applied < s.bootstrap_hwm ==> a.status == StatusView::Warming
            &&& s.destination_lag matches Some((name, lag)) ==> s.assigned && s.last_applied
                >= s.bootstrap_hwm ==> a.status == (StatusView::DestinationLagging { name, lag })
            &&& s.assigned && s.last_applied >= s.bootstrap_hwm && s.destination_lag is None
                && s.broker_end > s.last_applied + tolerance ==> a.status == (
            StatusView::LagBehindSource { lag: (s.broker_end - s.last_applied) as u64 })
            &&& s.assigned && s.last_applied >= s.bootstrap_hwm && s.destination_lag is None
                && s.broker_end <= s.last_applied + tolerance ==> a.status == StatusView::Ready
        }),
{
}

/// Whether the status is the one that the rest of the slot calls for.
pub open spec fn is_current(s: SlotView, tolerance: u64) -> bool {
    &&& s.status is SourceUnassigned <==> !s.assigned
    &&& s.status is Warming <==> s.assigned && s.last_applied < s.bootstrap_hwm
    &&& s.status is DestinationLagging <==> s.assigned && s.last_applied >= s.bootstrap_hwm
        && s.destination_lag is Some
    &&& s.status is LagBehindSource <==> s.assigned && s.last_applied >= s.bootstrap_hwm
        && s.destination_lag is None && s.broker_end > s.last_applied + tolerance
    &&& s.status is Ready <==> s.assigned && s.last_applied >= s.bootstrap_hwm
        && s.destination_lag is None && s.broker_end <= s.last_applied + tolerance
}

/// What each call does to the slot of its mirror. A source's end only
/// moves forward; assignments and reports of destinations are taken as
/// they come; and the status is then the one that is called for.
pub proof fn law_what_calls_do(c: CacheView, name: Seq<char>, end: u64, assigned: bool, lag: Option<
    (Seq<char>, u64),
>)
    requires
        c.mirrors.dom().contains(name),
    ensures
        ({
            let s = c.mirrors[name];
            let a = c.after(CacheCall::EndOffset { name, end });
            let b = c.after(CacheCall::Assignment { name, assigned });
            let d = c.after(CacheCall::DestinationLag { name, lag });
            &&& a.mirrors.dom().contains(name) && b.mirrors.dom().contains(name)
                && d.mirrors.dom().contains(name)
            &&& end <= s.broker_end ==> a.mirrors[name].broker_end == s.broker_end
            &&& end > s.broker_end ==> a.mirrors[name].broker_end == end
            &&& a.mirrors[name] == (SlotView {
                broker_end: a.mirrors[name].broker_end,
                status: a.mirrors[name].status,
                ..s
            })
            &&& b.mirrors[name] == (SlotView { assigned, status: b.mirrors[name].status, ..s })
            &&& d.mirrors[name] == (SlotView {
                destination_lag: lag,
                status: d.mirrors[name].status,
                ..s
            })
            &&& is_current(a.mirrors[name], c.tolerance)
            &&& is_current(b.mirrors[name], c.tolerance)
            &&& is_current(d.mirrors[name], c.tolerance)
        }),
{
}

/// A newly registered mirror holds nothing, has its partition, knows its
/// source's end, and is ready at once exactly where its source was empty.
/// It becomes the main one where that was asked for.
pub proof fn law_what_a_registration_does(
    c: CacheView,
    name: Seq<char>,
    hwm: u64,
    committed: Option<u64>,
    is_main: bool,
    topic: Seq<char>,
    partition: u32,
)
    ensures
        ({
            let a = c.after(
                CacheCall::Register {
                    name,
                    bootstrap_hwm: hwm,
                    committed,
                    is_main,
                    topic,
                    partition,
                },
            );
            let s = a.mirrors[name];
            &&& a.mirrors.dom() == c.mirrors.dom().insert(name)
            &&& s.entries.len() == 0
            &&& s.offsets == Map::<(Seq<char>, u32), u64>::empty()
            &&& s.last_applied == 0
            &&& s.bootstrap_hwm == hwm
            &&& s.broker_end == hwm
            &&& s.assigned
            &&& s.destination_lag is None
            &&& s.topic == topic
            &&& s.partition == partition
            &&& committed matches Some(n) ==> s.suppression_threshold == n
            &&& committed is None ==> s.suppression_threshold == hwm
            &&& hwm == 0 ==> s.status == StatusView::Ready
            &&& hwm > 0 ==> s.status == StatusView::Warming
            &&& is_main ==> a.main == Some(name)
            &&& !is_main ==> a.main == c.main
            &&& a.tolerance == c.tolerance
        }),
{
    let a = c.after(
        CacheCall::Register { name, bootstrap_hwm: hwm, committed, is_main, topic, partition },
    );
    assert(a.mirrors.dom() =~= c.mirrors.dom().insert(name));
}

/// The mirror that a call is about.
pub open spec fn called_mirror(call: CacheCall) -> Seq<char> {
    match call {
        CacheCall::Register { name, .. } => name,
        CacheCall::Apply { name, .. } => name,
        CacheCall::Replay { name, .. } => name,
        CacheCall::EndOffset { name, .. } => name,
        CacheCall::Assignment { name, .. } => name,
        CacheCall::DestinationLag { name, .. } => name,
    }
}

/// A call changes no other mirror, nor the tolerance, and only a
/// registration changes which mirrors there are, or which is the main one.
pub proof fn law_calls_change_one_mirror(c: CacheView, call: CacheCall, other: Seq<char>)
    ensures
        c.after(call).tolerance == c.tolerance,
        !(call is Register) ==> c.after(call).main == c.main,
        !(call is Register) ==> c.after(call).mirrors.dom() == c.mirrors.dom(),
        other != called_mirror(call) && c.mirrors.dom().contains(other) ==> c.after(
            call,
        ).mirrors.dom().contains(other) && c.after(call).mirrors[other] == c.mirrors[other],
        !(call is Register) && !c.mirrors.dom().contains(called_mirror(call)) ==> c.after(call) == c,
{
    if let CacheCall::Replay { name, records } = call {
        lemma_replay_changes_one(c, name, records, other);
    }
    if !(call is Register) && !(call is Replay) {
        assert(c.after(call).mirrors.dom() =~= c.mirrors.dom());
    }
}

proof fn lemma_replay_changes_one(
    c: CacheView,
    name: Seq<char>,
    rs: Seq<RecordView>,
    other: Seq<char>,
)
    ensures
        c.replayed(name, rs).tolerance == c.tolerance,
        c.replayed(name, rs).main == c.main,
        c.replayed(name, rs).mirrors.dom() == c.mirrors.dom(),
        other != name && c.mirrors.dom().contains(other) ==> c.replayed(name, rs).mirrors[other]
            == c.mirrors[other],
        !c.mirrors.dom().contains(name) ==> c.replayed(name, rs) == c,
    decreases rs.len(),
{
    if rs.len() > 0 {
        lemma_replay_changes_one(c, name, rs.drop_last(), other);
        assert(c.replayed(name, rs).mirrors.dom() =~= c.mirrors.dom());
    }
}

/// Applying a record to a registered mirror applies it to its slot.
/// Replaying records is applying them one by one, in order.
pub proof fn law_replaying_is_applying(
    c: CacheView,
    name: Seq<char>,
    rs: Seq<RecordView>,
    r: RecordView,
)
    ensures
        c.mirrors.dom().contains(name) ==> c.after(CacheCall::Apply { name, record: r }).mirrors
            == c.mirrors.insert(name, c.mirrors[name].applied(r, c.tolerance)),
        c.after(CacheCall::Replay { name, records: seq![] }) == c,
        c.after(CacheCall::Replay { name, records: rs.push(r) }) == c.after(
            CacheCall::Replay { name, records: rs },
        ).after(CacheCall::Apply { name, record: r }),
{
    assert(rs.push(r).drop_last() =~= rs);
}

/// Whether the status of every mirror is the one that is called for.
pub open spec fn all_current(c: CacheView) -> bool {
    forall|n: Seq<char>| #[trigger]
        c.mirrors.dom().contains(n) ==> is_current(c.mirrors[n], c.tolerance)
}

/// Whatever is called, in whatever order, the status of every mirror is the
/// one that is called for: a mirror that falls behind is not ready from
/// then on, and one that has caught up is.
pub proof fn law_status_is_always_current(c: CacheView, calls: Seq<CacheCall>)
    requires
        all_current(c),
        forall|i: int|
            0 <= i < calls.len() ==> ((#[trigger] calls[i]) matches CacheCall::Apply { record, .. }
                ==> record.source_offset < u64::MAX),
        forall|i: int|
            0 <= i < calls.len() ==> ((#[trigger] calls[i]) matches CacheCall::Replay {
                records,
                ..
            } ==> forall|j: int|
                0 <= j < records.len() ==> (#[trigger] records[j]).source_offset < u64::MAX),
    ensures
        all_current(c.after_all(calls)),
    decreases calls.len(),
{
    if calls.len() > 0 {
        let init = calls.drop_last();
        assert forall|i: int| 0 <= i < init.len() implies #[trigger] init[i] == calls[i] by {}
        law_status_is_always_current(c, init);
        let b = c.after_all(init);
        let call = calls[calls.len() - 1];
        match call {
            CacheCall::Apply { name, record } => {
                lemma_apply_keeps_current(b, name, record);
            },
            CacheCall::Replay { name, records } => {
                lemma_replay_keeps_current(b, name, records);
            },
            _ => {
                assert forall|n: Seq<char>| #[trigger] b.after(call).mirrors.dom().contains(
                    n,
                ) implies is_current(b.after(call).mirrors[n], b.after(call).tolerance) by {
                    if n != called_mirror(call) {
                        assert(b.mirrors.dom().contains(n));
                    }
                }
            },
        }
    }
}

proof fn lemma_apply_keeps_current(c: CacheView, name: Seq<char>, r: RecordView)
    requires
        all_current(c),
        r.source_offset < u64::MAX,
    ensures
        all_current(c.after(CacheCall::Apply { name, record: r })),
{
    let a = c.after(CacheCall::Apply { name, record: r });
    assert forall|n: Seq<char>| #[trigger] a.mirrors.dom().contains(n) implies is_current(
        a.mirrors[n],
        a.tolerance,
    ) by {
        assert(c.mirrors.dom().contains(n));
    }
}

proof fn lemma_replay_keeps_current(c: CacheView, name: Seq<char>, rs: Seq<RecordView>)
    requires
        all_current(c),
        forall|j: int| 0 <= j < rs.len() ==> (#[trigger] rs[j]).source_offset < u64::MAX,
    ensures
        all_current(c.replayed(name, rs)),
    decreases rs.len(),
{
    if rs.len() > 0 {
        let init = rs.drop_last();
        assert forall|j: int| 0 <= j < init.len() implies (#[trigger] init[j]).source_offset
            < u64::MAX by {
            assert(init[j] == rs[j]);
        }
        lemma_replay_keeps_current(c, name, init);
        assert(rs[rs.len() - 1] == rs.last());
        lemma_apply_keeps_current(c.replayed(name, init), name, rs.last());
    }
}

/// A row of a status report says what the mirror's slot holds.
pub proof fn law_status_rows(s: SlotView)
    ensures
        row_of(s).topic == s.topic,
        row_of(s).partition == s.partition,
        row_of(s).source_assigned == s.assigned,
        row_of(s).last_applied_offset == s.last_applied,
        row_of(s).broker_end_offset == s.broker_end,
        row_of(s).status == s.status,
{
}

/// Partitions are listed by topic, and by number within a topic.
pub proof fn law_order_of_partitions(a: (Seq<char>, u32), b: (Seq<char>, u32))
    ensures
        a.0 == b.0 ==> (partition_lt(a, b) <==> a.1 < b.1),
        a.0 != b.0 ==> (partition_lt(a, b) <==> text_lt(a.0, b.0)),
{
    crate::text::lemma_text_lt_total(a.0, b.0);
}

// ---- answers --------------------------------------------------------------------

/// The mirror's name in a request, if it has one.
pub open spec fn named_in(request: ReadRequest) -> Option<String> {
    match request {
        ReadRequest::Raw { mirror, .. } => mirror,
        ReadRequest::Offset { mirror, .. } => mirror,
        ReadRequest::Keys { mirror } => mirror,
        ReadRequest::Values { mirror } => mirror,
        ReadRequest::Ready => None,
    }
}

/// Whether the request reads the mirror of the given name: by its name, or
/// as the main one where it gives none.
pub open spec fn reads(c: CacheView, request: ReadRequest, name: Seq<char>) -> bool {
    &&& !(request is Ready)
    &&& match named_in(request) {
        Some(n) => n@ == name,
        None => c.main == Some(name),
    }
}

/// An answer without a body and without headers.
pub open spec fn is_empty_answer(r: HttpResponse, status: int) -> bool {
    r.status == status && r.body@.len() == 0 && r.content_type is None && r.offsets is None
}

/// Values and keys are read only from a mirror that is ready. A mirror
/// that is warming up, lost its partition or lags is answered with 503 and
/// nothing else; one that is not registered with 404. Only a ready one is
/// ever answered with 200.
pub proof fn law_only_ready_mirrors_are_read(
    c: CacheView,
    request: ReadRequest,
    r: HttpResponse,
    name: Seq<char>,
)
    requires
        answers(c, request, r),
        reads(c, request, name),
        !(request is Offset),
    ensures
        !c.mirrors.dom().contains(name) ==> is_empty_answer(r, 404),
        c.mirrors.dom().contains(name) && !(c.mirrors[name].status is Ready) ==> is_empty_answer(
            r,
            503,
        ),
        r.status == 200 ==> c.mirrors.dom().contains(name) && c.mirrors[name].status is Ready,
        c.mirrors.dom().contains(name) && c.mirrors[name].status is Ready && !(request is Raw)
            ==> r.status == 200,
{
}

/// The value of a key is answered with 200 and that value, exactly where
/// the mirror is ready and holds the key. A key that it does not hold is
/// not found, and a key without a character is a bad request.
pub proof fn law_reading_a_key(
    c: CacheView,
    mirror: Option<String>,
    key: String,
    r: HttpResponse,
    name: Seq<char>,
    value: Seq<u8>,
)
    requires
        answers(c, ReadRequest::Raw { mirror, key }, r),
        reads(c, ReadRequest::Raw { mirror, key }, name),
        c.mirrors.dom().contains(name),
        c.mirrors[name].status is Ready,
        unique_keys(c.mirrors[name].entries),
    ensures
        key@.len() == 0 ==> is_empty_answer(r, 400),
        key@.len() > 0 && holds_entry(c.mirrors[name], key@, value) ==> {
            &&& r.status == 200
            &&& r.body@ == value
            &&& r.content_type matches Some(t) && t@ == "application/octet-stream"@
            &&& r.offsets matches Some(o) && tells_offsets(c.mirrors[name], encode_utf8(o@))
        },
        key@.len() > 0 && !holds_key(c.mirrors[name], key@) ==> is_empty_answer(r, 404),
{
    lemma_entries(c.mirrors[name], key@, value);
}

/// Keys and values are answered one per line, in the order of the keys.
pub proof fn law_reading_keys_and_values(
    c: CacheView,
    mirror: Option<String>,
    keys: HttpResponse,
    values: HttpResponse,
    name: Seq<char>,
)
    requires
        answers(c, ReadRequest::Keys { mirror }, keys),
        answers(c, ReadRequest::Values { mirror }, values),
        reads(c, ReadRequest::Keys { mirror }, name),
        c.mirrors.dom().contains(name),
        c.mirrors[name].status is Ready,
    ensures
        keys.status == 200,
        values.status == 200,
        keys.body@ == text_lines(
            c.mirrors[name].entries.map_values(|e: (Seq<char>, Seq<u8>)| e.0),
        ),
        values.body@ == byte_lines(
            c.mirrors[name].entries.map_values(|e: (Seq<char>, Seq<u8>)| e.1),
        ),
        keys.offsets matches Some(o) && tells_offsets(c.mirrors[name], encode_utf8(o@)),
        values.offsets matches Some(o) && tells_offsets(c.mirrors[name], encode_utf8(o@)),
        keys.content_type matches Some(t) && t@ == "application/octet-stream"@,
        values.content_type matches Some(t) && t@ == "text/plain; charset=utf-8"@,
{
}

/// A line is a text, or a byte string, with a line break behind it. Lines
/// of two lists, one behind the other, are the lines of each.
pub proof fn law_lines_add_up(
    a: Seq<Seq<char>>,
    b: Seq<Seq<char>>,
    x: Seq<Seq<u8>>,
    y: Seq<Seq<u8>>,
    t: Seq<char>,
    v: Seq<u8>,
)
    ensures
        text_lines(a + b) == text_lines(a) + text_lines(b),
        text_lines(seq![t]) == encode_utf8(t).push(10u8),
        text_lines(seq![]) == Seq::<u8>::empty(),
        byte_lines(x + y) == byte_lines(x) + byte_lines(y),
        byte_lines(seq![v]) == v.push(10u8),
        byte_lines(seq![]) == Seq::<u8>::empty(),
{
    lemma_text_lines_add(a, b);
    lemma_byte_lines_add(x, y);
    assert(seq![t].drop_last() =~= Seq::<Seq<char>>::empty());
    assert(seq![v].drop_last() =~= Seq::<Seq<u8>>::empty());
    assert(text_lines(seq![t].drop_last()) =~= Seq::<u8>::empty());
    assert(byte_lines(seq![v].drop_last()) =~= Seq::<u8>::empty());
    assert(text_lines(seq![t]) =~= encode_utf8(t).push(10u8));
    assert(byte_lines(seq![v]) =~= v.push(10u8));
}

proof fn lemma_text_lines_add(a: Seq<Seq<char>>, b: Seq<Seq<char>>)
    ensures
        text_lines(a + b) == text_lines(a) + text_lines(b),
    decreases b.len(),
{
    if b.len() == 0 {
        assert(a + b =~= a);
        assert(text_lines(a) + text_lines(b) =~= text_lines(a));
    } else {
        lemma_text_lines_add(a, b.drop_last());
        assert((a + b).drop_last() =~= a + b.drop_last());
        assert((a + b).last() == b.last());
        assert(text_lines(a + b) =~= text_lines(a) + text_lines(b));
    }
}

proof fn lemma_byte_lines_add(a: Seq<Seq<u8>>, b: Seq<Seq<u8>>)
    ensures
        byte_lines(a + b) == byte_lines(a) + byte_lines(b),
    decreases b.len(),
{
    if b.len() == 0 {
        assert(a + b =~= a);
        assert(byte_lines(a) + byte_lines(b) =~= byte_lines(a));
    } else {
        lemma_byte_lines_add(a, b.drop_last());
        assert((a + b).drop_last() =~= a + b.drop_last());
        assert((a + b).last() == b.last());
        assert(byte_lines(a + b) =~= byte_lines(a) + byte_lines(b));
    }
}

/// How far a partition was applied is answered in decimal, ready or not,
/// and with nothing where the partition was not seen. A mirror that is not
/// registered is not found, and a topic without a character is a bad
/// request.
pub proof fn law_reading_an_offset(
    c: CacheView,
    mirror: Option<String>,
    topic: String,
    partition: u32,
    r: HttpResponse,
    name: Seq<char>,
)
    requires
        answers(c, ReadRequest::Offset { mirror, topic, partition }, r),
        reads(c, ReadRequest::Offset { mirror, topic, partition }, name),
    ensures
        !c.mirrors.dom().contains(name) ==> is_empty_answer(r, 404),
        c.mirrors.dom().contains(name) && topic@.len() == 0 ==> is_empty_answer(r, 400),
        c.mirrors.dom().contains(name) && topic@.len() > 0 ==> {
            &&& r.status == 200
            &&& r.content_type matches Some(t) && t@ == "text/plain; charset=utf-8"@
            &&& r.offsets is None
            &&& c.mirrors[name].offsets.dom().contains((topic@, partition)) ==> r.body@
                == encode_utf8(dec(c.mirrors[name].offsets[(topic@, partition)] as nat))
            &&& !c.mirrors[name].offsets.dom().contains((topic@, partition)) ==> r.body@.len() == 0
        },
{
}

/// The process is ready exactly where there is a mirror and every mirror is
/// ready.
pub proof fn law_when_the_process_is_ready(c: CacheView, r: HttpResponse, name: Seq<char>)
    requires
        answers(c, ReadRequest::Ready, r),
    ensures
        is_empty_answer(r, 200) || is_empty_answer(r, 503),
        c.mirrors.dom().contains(name) && !(c.mirrors[name].status is Ready) ==> r.status == 503,
        c.mirrors.dom() == Set::<Seq<char>>::empty() ==> r.status == 503,
        c.mirrors.dom().contains(name) && (forall|n: Seq<char>| #[trigger]
            c.mirrors.dom().contains(n) ==> c.mirrors[n].status is Ready) ==> r.status == 200,
{
}

/// A request that names no mirror is not found where there is no main one,
/// and else answered as the same request under its name.
pub proof fn law_requests_without_a_name(
    c: CacheView,
    main: String,
    key: String,
    topic: String,
    partition: u32,
    r: HttpResponse,
)
    ensures
        c.main is None && answers(c, ReadRequest::Raw { mirror: None, key }, r) ==> is_empty_answer(
            r,
            404,
        ),
        c.main is None && answers(c, ReadRequest::Keys { mirror: None }, r) ==> is_empty_answer(
            r,
            404,
        ),
        c.main is None && answers(c, ReadRequest::Values { mirror: None }, r) ==> is_empty_answer(
            r,
            404,
        ),
        c.main is None && answers(c, ReadRequest::Offset { mirror: None, topic, partition }, r)
            ==> is_empty_answer(r, 404),
        c.main == Some(main@) ==> {
            &&& answers(c, ReadRequest::Raw { mirror: None, key }, r) <==> answers(
                c,
                ReadRequest::Raw { mirror: Some(main), key },
                r,
            )
            &&& answers(c, ReadRequest::Keys { mirror: None }, r) <==> answers(
                c,
                ReadRequest::Keys { mirror: Some(main) },
                r,
            )
            &&& answers(c, ReadRequest::Values { mirror: None }, r) <==> answers(
                c,
                ReadRequest::Values { mirror: Some(main) },
                r,
            )
            &&& answers(c, ReadRequest::Offset { mirror: None, topic, partition }, r) <==> answers(
                c,
                ReadRequest::Offset { mirror: Some(main), topic, partition },
                r,
            )
        },
{
}

/// The header of a read is a JSON list with one object for each partition
/// that was applied, in the order of topics and then of partitions, each
/// with its offset, its number and its topic.
pub proof fn law_what_the_offsets_header_tells(s: SlotView, bytes: Seq<u8>)
    requires
        tells_offsets(s, bytes),
    ensures
        exists|l: Seq<((Seq<char>, u32), u64)>|
            {
                &&& #[trigger] json_bytes(offsets_json(l)) == bytes
                &&& forall|i: int, j: int|
                    0 <= i < j < l.len() ==> text_lt(l[i].0.0, l[j].0.0) || (l[i].0.0 == l[j].0.0
                        && l[i].0.1 < l[j].0.1)
                &&& forall|i: int|
                    0 <= i < l.len() ==> s.offsets.dom().contains((#[trigger] l[i]).0)
                        && s.offsets[l[i].0] == l[i].1
                &&& forall|tp: (Seq<char>, u32)| #[trigger]
                    s.offsets.dom().contains(tp) ==> exists|i: int|
                        0 <= i < l.len() && (#[trigger] l[i]).0 == tp
                &&& offsets_json(l) matches Json::List(items) && items.len() == l.len()
                &&& forall|i: int|
                    0 <= i < l.len() ==> offsets_json(l)->List_0[i] == Json::Object(
                        seq![
                            ("offset"@, Json::Int((#[trigger] l[i]).1 as int)),
                            ("partition"@, Json::Int(l[i].0.1 as int)),
                            ("topic"@, Json::Text(l[i].0.0)),
                        ],
                    )
            },
{
    let l = choose|l: Seq<((Seq<char>, u32), u64)>|
        #![trigger offsets_json(l)]
        crate::cache::in_partition_order(l) && unique_keys(l) && as_map(l) == s.offsets && bytes
            == json_bytes(offsets_json(l));
    assert(json_bytes(offsets_json(l)) == bytes);
    assert forall|i: int, j: int| 0 <= i < j < l.len() implies text_lt(l[i].0.0, l[j].0.0) || (
    l[i].0.0 == l[j].0.0 && l[i].0.1 < l[j].0.1) by {
        assert(partition_lt(l[i].0, l[j].0));
    }
    assert forall|i: int| 0 <= i < l.len() implies s.offsets.dom().contains((#[trigger] l[i]).0)
        && s.offsets[l[i].0] == l[i].1 by {
        lemma_lookup_at(l, i);
        assert(has_key(l, l[i].0));
    }
    assert forall|tp: (Seq<char>, u32)| #[trigger] s.offsets.dom().contains(tp) implies exists|
        i: int,
    | 0 <= i < l.len() && (#[trigger] l[i]).0 == tp by {
        assert(has_key(l, tp));
    }
    assert forall|i: int| 0 <= i < l.len() implies offsets_json(l)->List_0[i] == Json::Object(
        seq![
            ("offset"@, Json::Int((#[trigger] l[i]).1 as int)),
            ("partition"@, Json::Int(l[i].0.1 as int)),
            ("topic"@, Json::Text(l[i].0.0)),
        ],
    ) by {
        assert(offsets_json(l)->List_0[i] == offset_json(l[i]));
    }
}

} // verus!
