//! Records as lines of JSON.
//!
//! One object per line. Keys, values and header values are base64, so a
//! line is text whatever they hold. Parts that a record lacks are left
//! out.
use vstd::prelude::*;
use vstd::string::*;

use crate::assoc::{
    as_map, has_key, lemma_lookup_at, lemma_push_inserts, lemma_remove_at, unique_keys,
};
use crate::base64::{base64_bytes, base64_text, decode_base64, encode_base64};
use crate::envelope::EnvelopeError;
use crate::json::{
    close_json, is_flat, is_flat_list, is_scalar, is_shallow, is_written_name, items_of, json_bytes,
    json_of, json_parse, members_of, open_json, parse_json, write_json, Json, Opened,
};
use crate::record::{
    headers_view, payload_view, records_view, Header, HeaderView, Record, RecordView, TimestampType,
};
use crate::text::same_text;

verus! {

// ---- the format --------------------------------------------------------------

/// A member that is left out where there is nothing to say.
pub open spec fn optional(name: Seq<char>, j: Option<Json>) -> Seq<(Seq<char>, Json)> {
    match j {
        Some(x) => seq![(name, x)],
        None => seq![],
    }
}

pub open spec fn payload_json(p: Option<Seq<u8>>) -> Option<Json> {
    match p {
        Some(b) => Some(Json::Text(base64_text(b))),
        None => None,
    }
}

/// A header as an object.
pub open spec fn header_json(h: HeaderView) -> Json {
    Json::Object(seq![("key"@, Json::Text(h.key))] + optional("value"@, payload_json(h.value)))
}

pub open spec fn headers_json(h: Seq<HeaderView>) -> Option<Json> {
    if h.len() == 0 {
        None
    } else {
        Some(Json::List(h.map_values(|x: HeaderView| header_json(x))))
    }
}

pub open spec fn timestamp_json(t: Option<i64>) -> Option<Json> {
    match t {
        Some(ms) => Some(Json::Int(ms as int)),
        None => None,
    }
}

/// The members of a record's object.
pub open spec fn record_members(r: RecordView) -> Seq<(Seq<char>, Json)> {
    seq![
        ("topic"@, Json::Text(r.topic)),
        ("partition"@, Json::Int(r.partition as int)),
        ("offset"@, Json::Int(r.source_offset as int)),
    ] + optional("timestamp_ms"@, timestamp_json(r.timestamp_ms)) + seq![
        ("timestamp_type"@, Json::Text(r.timestamp_type.wire_name())),
    ] + optional("key"@, payload_json(r.key)) + optional("value"@, payload_json(r.value))
        + optional("headers"@, headers_json(r.headers))
}

/// A record as an object.
pub open spec fn record_json(r: RecordView) -> Json {
    Json::Object(record_members(r))
}

/// Records as lines, each ended by a line break.
pub open spec fn lines_of(records: Seq<RecordView>) -> Seq<u8>
    decreases records.len(),
{
    if records.len() == 0 {
        seq![]
    } else {
        lines_of(records.drop_last()) + json_bytes(record_json(records.last())) + seq![10u8]
    }
}

/// The fields of an object by name. A list stands for an object whose
/// members have the given names, in order; it may stop early.
pub open spec fn fields_of(j: Json, names: Seq<Seq<char>>) -> Option<Map<Seq<char>, Json>> {
    match j {
        Json::Object(m) => Some(as_map(m)),
        Json::List(l) => if l.len() <= names.len() {
            Some(as_map(Seq::new(l.len(), |i: int| (names[i], l[i]))))
        } else {
            None
        },
        _ => None,
    }
}

/// A field, if it is there.
pub open spec fn field(m: Map<Seq<char>, Json>, name: Seq<char>) -> Option<Json> {
    if m.dom().contains(name) {
        Some(m[name])
    } else {
        None
    }
}

/// What is missing or has the wrong type.
pub open spec fn bad_field(name: Seq<char>) -> Seq<char> {
    "missing or invalid field `"@ + name + "`"@
}

pub open spec fn text_field(m: Map<Seq<char>, Json>, name: Seq<char>) -> Result<
    Seq<char>,
    Seq<char>,
> {
    match field(m, name) {
        Some(Json::Text(s)) => Ok(s),
        _ => Err(bad_field(name)),
    }
}

pub open spec fn int_field(m: Map<Seq<char>, Json>, name: Seq<char>, lo: int, hi: int) -> Result<
    int,
    Seq<char>,
> {
    match field(m, name) {
        Some(Json::Int(n)) => if lo <= n <= hi {
            Ok(n)
        } else {
            Err(bad_field(name))
        },
        _ => Err(bad_field(name)),
    }
}

pub open spec fn timestamp_field(m: Map<Seq<char>, Json>, name: Seq<char>) -> Result<
    Option<i64>,
    Seq<char>,
> {
    match field(m, name) {
        None => Ok(None),
        Some(Json::Null) => Ok(None),
        Some(Json::Int(n)) => if i64::MIN <= n <= i64::MAX {
            Ok(Some(n as i64))
        } else {
            Err(bad_field(name))
        },
        _ => Err(bad_field(name)),
    }
}

pub open spec fn payload_field(m: Map<Seq<char>, Json>, name: Seq<char>) -> Result<
    Option<Seq<u8>>,
    Seq<char>,
> {
    match field(m, name) {
        None => Ok(None),
        Some(Json::Null) => Ok(None),
        Some(Json::Text(s)) => match base64_bytes(s) {
            Ok(b) => Ok(Some(b)),
            Err(e) => Err(e),
        },
        _ => Err(bad_field(name)),
    }
}

pub open spec fn header_names() -> Seq<Seq<char>> {
    seq!["key"@, "value"@]
}

pub open spec fn header_of(j: Json) -> Result<HeaderView, Seq<char>> {
    match fields_of(j, header_names()) {
        None => Err("a header must be an object"@),
        Some(m) => match (text_field(m, "key"@), payload_field(m, "value"@)) {
            (Err(e), _) => Err(e),
            (_, Err(e)) => Err(e),
            (Ok(key), Ok(value)) => Ok(HeaderView { key, value }),
        },
    }
}

/// The headers in a list; the first that is none is an error.
pub open spec fn headers_of(l: Seq<Json>) -> Result<Seq<HeaderView>, Seq<char>>
    decreases l.len(),
{
    if l.len() == 0 {
        Ok(seq![])
    } else {
        match headers_of(l.drop_last()) {
            Err(e) => Err(e),
            Ok(before) => match header_of(l.last()) {
                Err(e) => Err(e),
                Ok(h) => Ok(before.push(h)),
            },
        }
    }
}

pub open spec fn headers_field(m: Map<Seq<char>, Json>, name: Seq<char>) -> Result<
    Seq<HeaderView>,
    Seq<char>,
> {
    match field(m, name) {
        None => Ok(seq![]),
        Some(Json::List(l)) => headers_of(l),
        _ => Err(bad_field(name)),
    }
}

/// The timestamp type of the given name; a name that is not known stands
/// for none.
pub open spec fn type_named(s: Seq<char>) -> TimestampType {
    if s == TimestampType::CreateTime.wire_name() {
        TimestampType::CreateTime
    } else if s == TimestampType::LogAppendTime.wire_name() {
        TimestampType::LogAppendTime
    } else {
        TimestampType::NotAvailable
    }
}

pub open spec fn record_names() -> Seq<Seq<char>> {
    seq![
        "topic"@,
        "partition"@,
        "offset"@,
        "timestamp_ms"@,
        "timestamp_type"@,
        "key"@,
        "value"@,
        "headers"@,
    ]
}

/// The record that the fields make up.
pub open spec fn record_of_fields(m: Map<Seq<char>, Json>) -> Result<RecordView, Seq<char>> {
    let topic = text_field(m, "topic"@);
    let partition = int_field(m, "partition"@, i32::MIN as int, i32::MAX as int);
    let offset = int_field(m, "offset"@, 0, u64::MAX as int);
    let timestamp = timestamp_field(m, "timestamp_ms"@);
    let kind = text_field(m, "timestamp_type"@);
    let key = payload_field(m, "key"@);
    let value = payload_field(m, "value"@);
    let headers = headers_field(m, "headers"@);
    if topic is Err {
        Err(topic->Err_0)
    } else if partition is Err {
        Err(partition->Err_0)
    } else if offset is Err {
        Err(offset->Err_0)
    } else if timestamp is Err {
        Err(timestamp->Err_0)
    } else if kind is Err {
        Err(kind->Err_0)
    } else if key is Err {
        Err(key->Err_0)
    } else if value is Err {
        Err(value->Err_0)
    } else if headers is Err {
        Err(headers->Err_0)
    } else {
        Ok(
            RecordView {
                topic: topic->Ok_0,
                partition: partition->Ok_0 as i32,
                source_offset: offset->Ok_0 as u64,
                timestamp_ms: timestamp->Ok_0,
                timestamp_type: type_named(kind->Ok_0),
                key: key->Ok_0,
                value: value->Ok_0,
                headers: headers->Ok_0,
            },
        )
    }
}

/// The record that a document stands for. Members that are not known are
/// passed over.
pub open spec fn record_of(j: Json) -> Result<RecordView, Seq<char>> {
    match fields_of(j, record_names()) {
        None => Err("a record must be an object"@),
        Some(m) => record_of_fields(m),
    }
}

pub open spec fn record_of_line(line: Seq<u8>) -> Result<RecordView, Seq<char>> {
    match json_parse(line) {
        Err(e) => Err(e),
        Ok(j) => record_of(j),
    }
}

/// The place of the first line break, or the length.
pub open spec fn line_end(b: Seq<u8>) -> nat
    decreases b.len(),
{
    if b.len() == 0 || b[0] == 10u8 {
        0
    } else {
        1 + line_end(b.skip(1))
    }
}

/// The records that the lines hold. Empty lines are passed over, and the
/// first line that holds no record is an error.
pub open spec fn records_of(b: Seq<u8>) -> Result<Seq<RecordView>, Seq<char>>
    decreases b.len(),
{
    if b.len() == 0 {
        Ok(seq![])
    } else {
        let end = line_end(b) as int;
        let rest = if end < b.len() {
            b.skip(end + 1)
        } else {
            seq![]
        };
        if end == 0 {
            records_of(b.skip(1))
        } else {
            match record_of_line(b.take(end)) {
                Err(e) => Err(e),
                Ok(r) => match records_of(rest) {
                    Err(e) => Err(e),
                    Ok(rs) => Ok(seq![r] + rs),
                },
            }
        }
    }
}

// ---- writing -------------------------------------------------------------------

/// Whether a payload can be had back from its base64 text.
pub open spec fn restorable_bytes(p: Option<Seq<u8>>) -> bool {
    p matches Some(b) ==> base64_bytes(base64_text(b)) == Ok::<Seq<u8>, Seq<char>>(b)
}

/// Whether every payload of a record can be had back.
pub open spec fn restorable(r: RecordView) -> bool {
    &&& restorable_bytes(r.key)
    &&& restorable_bytes(r.value)
    &&& forall|i: int| 0 <= i < r.headers.len() ==> restorable_bytes((#[trigger] r.headers[i]).value)
}

fn text_value(s: &str) -> (v: serde_json::Value)
    ensures
        json_of(v) == Json::Text(s@),
{
    close_json(Opened::Text(s.to_owned()))
}

fn int_value(n: i64) -> (v: serde_json::Value)
    ensures
        json_of(v) == Json::Int(n as int),
{
    close_json(Opened::Int(n))
}

fn payload_value(b: &Vec<u8>) -> (v: serde_json::Value)
    ensures
        json_of(v) == Json::Text(base64_text(b@)),
        restorable_bytes(Some(b@)),
{
    close_json(Opened::Text(encode_base64(b.as_slice())))
}

pub(crate) proof fn lemma_names()
    ensures
        "topic"@ != "partition"@,
        "topic"@ != "offset"@,
        "topic"@ != "timestamp_ms"@,
        "topic"@ != "timestamp_type"@,
        "topic"@ != "key"@,
        "topic"@ != "value"@,
        "topic"@ != "headers"@,
        "partition"@ != "offset"@,
        "partition"@ != "timestamp_ms"@,
        "partition"@ != "timestamp_type"@,
        "partition"@ != "key"@,
        "partition"@ != "value"@,
        "partition"@ != "headers"@,
        "offset"@ != "timestamp_ms"@,
        "offset"@ != "timestamp_type"@,
        "offset"@ != "key"@,
        "offset"@ != "value"@,
        "offset"@ != "headers"@,
        "timestamp_ms"@ != "timestamp_type"@,
        "timestamp_ms"@ != "key"@,
        "timestamp_ms"@ != "value"@,
        "timestamp_ms"@ != "headers"@,
        "timestamp_type"@ != "key"@,
        "timestamp_type"@ != "value"@,
        "timestamp_type"@ != "headers"@,
        "key"@ != "value"@,
        "key"@ != "headers"@,
        "value"@ != "headers"@,
{
    reveal_strlit("topic");
    reveal_strlit("partition");
    reveal_strlit("offset");
    reveal_strlit("timestamp_ms");
    reveal_strlit("timestamp_type");
    reveal_strlit("key");
    reveal_strlit("value");
    reveal_strlit("headers");
    assert("topic"@.len() == 5 && "topic"@[0] == 't');
    assert("value"@.len() == 5 && "value"@[0] == 'v');
    assert("partition"@.len() == 9);
    assert("offset"@.len() == 6);
    assert("timestamp_ms"@.len() == 12);
    assert("timestamp_type"@.len() == 14);
    assert("key"@.len() == 3);
    assert("headers"@.len() == 7);
}

/// `s` and an optional member, as a list and as a map.
proof fn lemma_optional(s: Seq<(Seq<char>, Json)>, name: Seq<char>, j: Option<Json>)
    requires
        unique_keys(s),
        !has_key(s, name),
    ensures
        unique_keys(s + optional(name, j)),
        as_map(s + optional(name, j)) == match j {
            Some(x) => as_map(s).insert(name, x),
            None => as_map(s),
        },
{
    match j {
        Some(x) => {
            lemma_push_inserts(s, name, x);
            assert(s + seq![(name, x)] =~= s.push((name, x)));
        },
        None => {
            assert(s + seq![] =~= s);
        },
    }
}

/// The fields of a record's object.
pub open spec fn record_fields(r: RecordView) -> Map<Seq<char>, Json> {
    let base = Map::empty().insert("topic"@, Json::Text(r.topic)).insert(
        "partition"@,
        Json::Int(r.partition as int),
    ).insert("offset"@, Json::Int(r.source_offset as int));
    let a = with_optional(base, "timestamp_ms"@, timestamp_json(r.timestamp_ms)).insert(
        "timestamp_type"@,
        Json::Text(r.timestamp_type.wire_name()),
    );
    let b = with_optional(a, "key"@, payload_json(r.key));
    let c = with_optional(b, "value"@, payload_json(r.value));
    with_optional(c, "headers"@, headers_json(r.headers))
}

pub open spec fn with_optional(m: Map<Seq<char>, Json>, name: Seq<char>, j: Option<Json>) -> Map<
    Seq<char>,
    Json,
> {
    match j {
        Some(x) => m.insert(name, x),
        None => m,
    }
}

pub(crate) proof fn lemma_record_members(r: RecordView)
    ensures
        unique_keys(record_members(r)),
        as_map(record_members(r)) == record_fields(r),
{
    lemma_names();
    let e = Seq::<(Seq<char>, Json)>::empty();
    assert(as_map(e) =~= Map::empty());
    let t = ("topic"@, Json::Text(r.topic));
    let p = ("partition"@, Json::Int(r.partition as int));
    let o = ("offset"@, Json::Int(r.source_offset as int));
    lemma_push_inserts(e, t.0, t.1);
    let s1 = e.push(t);
    lemma_absent(s1, p.0);
    lemma_push_inserts(s1, p.0, p.1);
    let s2 = s1.push(p);
    lemma_absent(s2, o.0);
    lemma_push_inserts(s2, o.0, o.1);
    let s3 = s2.push(o);
    assert(s3 =~= seq![t, p, o]);
    lemma_absent(s3, "timestamp_ms"@);
    lemma_optional(s3, "timestamp_ms"@, timestamp_json(r.timestamp_ms));
    let s4 = s3 + optional("timestamp_ms"@, timestamp_json(r.timestamp_ms));
    let k = ("timestamp_type"@, Json::Text(r.timestamp_type.wire_name()));
    lemma_absent(s4, k.0);
    lemma_push_inserts(s4, k.0, k.1);
    let s5 = s4.push(k);
    assert(s5 =~= s4 + seq![k]);
    lemma_absent(s5, "key"@);
    lemma_optional(s5, "key"@, payload_json(r.key));
    let s6 = s5 + optional("key"@, payload_json(r.key));
    lemma_absent(s6, "value"@);
    lemma_optional(s6, "value"@, payload_json(r.value));
    let s7 = s6 + optional("value"@, payload_json(r.value));
    lemma_absent(s7, "headers"@);
    lemma_optional(s7, "headers"@, headers_json(r.headers));
}

/// A key that the map lacks is not in the list.
proof fn lemma_absent(s: Seq<(Seq<char>, Json)>, k: Seq<char>)
    requires
        !as_map(s).dom().contains(k),
    ensures
        !has_key(s, k),
{
}

/// The members of a header's object.
pub(crate) proof fn lemma_header_members(h: HeaderView)
    ensures
        header_json(h) is Object,
        is_flat(header_json(h)),
        as_map(header_json(h)->Object_0) == with_optional(
            Map::empty().insert("key"@, Json::Text(h.key)),
            "value"@,
            payload_json(h.value),
        ),
{
    lemma_names();
    let e = Seq::<(Seq<char>, Json)>::empty();
    assert(as_map(e) =~= Map::empty());
    let k = ("key"@, Json::Text(h.key));
    lemma_push_inserts(e, k.0, k.1);
    let s1 = e.push(k);
    assert(s1 =~= seq![k]);
    lemma_absent(s1, "value"@);
    lemma_optional(s1, "value"@, payload_json(h.value));
}

/// A header as a document.
fn header_value(h: &Header) -> (v: serde_json::Value)
    ensures
        json_of(v) == header_json(h@),
        restorable_bytes(h@.value),
{
    let mut m: Vec<(String, serde_json::Value)> = Vec::new();
    m.push(("key".to_owned(), text_value(h.key.as_str())));
    if let Some(b) = &h.value {
        m.push(("value".to_owned(), payload_value(b)));
    }
    proof {
        lemma_header_members(h@);
        assert(members_of(m@) =~= header_json(h@)->Object_0);
    }
    close_json(Opened::Object(m))
}

/// A record as a document.
fn record_value(r: &Record) -> (v: serde_json::Value)
    ensures
        json_of(v) == record_json(r@),
        restorable(r@),
{
    let mut m: Vec<(String, serde_json::Value)> = Vec::new();
    m.push(("topic".to_owned(), text_value(r.topic.as_str())));
    m.push(("partition".to_owned(), int_value(r.partition as i64)));
    m.push(("offset".to_owned(), close_json(Opened::Uint(r.source_offset))));
    let ghost s3 = seq![
        ("topic"@, Json::Text(r.topic@)),
        ("partition"@, Json::Int(r.partition as int)),
        ("offset"@, Json::Int(r.source_offset as int)),
    ];
    assert(members_of(m@) =~= s3);
    if let Some(ms) = r.timestamp_ms {
        m.push(("timestamp_ms".to_owned(), int_value(ms)));
    }
    let ghost s4 = s3 + optional("timestamp_ms"@, timestamp_json(r.timestamp_ms));
    assert(members_of(m@) =~= s4);
    m.push(("timestamp_type".to_owned(), text_value(r.timestamp_type.as_str())));
    let ghost s5 = s4 + seq![("timestamp_type"@, Json::Text(r.timestamp_type.wire_name()))];
    assert(members_of(m@) =~= s5);
    if let Some(b) = &r.key {
        m.push(("key".to_owned(), payload_value(b)));
    }
    let ghost s6 = s5 + optional("key"@, payload_json(r@.key));
    assert(members_of(m@) =~= s6);
    if let Some(b) = &r.value {
        m.push(("value".to_owned(), payload_value(b)));
    }
    let ghost s7 = s6 + optional("value"@, payload_json(r@.value));
    assert(members_of(m@) =~= s7);
    if r.headers.len() > 0 {
        let mut list: Vec<serde_json::Value> = Vec::new();
        let mut i: usize = 0;
        while i < r.headers.len()
            invariant
                i <= r.headers.len(),
                list.len() == i,
                forall|j: int| 0 <= j < i ==> json_of(#[trigger] list@[j]) == header_json(
                    r.headers@[j]@,
                ),
                forall|j: int|
                    0 <= j < i ==> restorable_bytes((#[trigger] headers_view(r.headers@)[j]).value),
            decreases r.headers.len() - i,
        {
            list.push(header_value(&r.headers[i]));
            i += 1;
        }
        assert(items_of(list@) =~= r@.headers.map_values(|x: HeaderView| header_json(x)));
        m.push(("headers".to_owned(), close_json(Opened::List(list))));
    }
    proof {
        assert(members_of(m@) =~= s7 + optional("headers"@, headers_json(r@.headers)));
        lemma_record_members(r@);
    }
    close_json(Opened::Object(m))
}

proof fn lemma_record_is_shallow(r: RecordView)
    ensures
        is_shallow(record_json(r)),
{
    lemma_record_members(r);
    let m = record_members(r);
    let h = headers_json(r.headers);
    assert forall|i: int| 0 <= i < m.len() implies is_written_name((#[trigger] m[i]).0) && (is_scalar(
        m[i].1,
    ) || is_flat_list(m[i].1)) by {
        if let Some(Json::List(l)) = h {
            assert forall|k: int| 0 <= k < l.len() implies is_flat(#[trigger] l[k]) by {
                lemma_header_members(r.headers[k]);
            }
        }
    }
}

// ---- reading -------------------------------------------------------------------

fn bad(name: &str) -> (e: String)
    ensures
        e@ == bad_field(name@),
{
    "missing or invalid field `".to_owned().concat(name).concat("`")
}

/// Take the member of the given name out of a list of members.
fn take_member(m: &mut Vec<(String, serde_json::Value)>, name: &str) -> (r: Option<Opened>)
    requires
        unique_keys(members_of(old(m)@)),
    ensures
        unique_keys(members_of(final(m)@)),
        as_map(members_of(final(m)@)) == as_map(members_of(old(m)@)).remove(name@),
        r is Some <==> field(as_map(members_of(old(m)@)), name@) is Some,
        r matches Some(v) ==> field(as_map(members_of(old(m)@)), name@) == Some(v.json()) && (
        v matches Opened::Int(n) ==> n < 0) && (v matches Opened::Object(o) ==> unique_keys(
            members_of(o@),
        )),
{
    let ghost all = members_of(m@);
    let mut i: usize = 0;
    while i < m.len()
        invariant
            i <= m.len(),
            all == members_of(m@),
            unique_keys(all),
            m@ == old(m)@,
            forall|j: int| 0 <= j < i ==> (#[trigger] all[j]).0 != name@,
        decreases m.len() - i,
    {
        assert(all[i as int].0 == m@[i as int].0@);
        if same_text(m[i].0.as_str(), name) {
            proof {
                lemma_lookup_at(all, i as int);
                lemma_remove_at(all, i as int);
            }
            let (_, v) = m.remove(i);
            assert(members_of(m@) =~= all.remove(i as int));
            return Some(open_json(v));
        }
        i += 1;
    }
    assert(!has_key(all, name@));
    assert(as_map(all).remove(name@) =~= as_map(all));
    None
}

fn take_text(m: &mut Vec<(String, serde_json::Value)>, name: &str) -> (r: Result<String, String>)
    requires
        unique_keys(members_of(old(m)@)),
    ensures
        unique_keys(members_of(final(m)@)),
        as_map(members_of(final(m)@)) == as_map(members_of(old(m)@)).remove(name@),
        match (r, text_field(as_map(members_of(old(m)@)), name@)) {
            (Ok(s), Ok(t)) => s@ == t,
            (Err(e), Err(f)) => e@ == f,
            _ => false,
        },
{
    match take_member(m, name) {
        Some(Opened::Text(s)) => Ok(s),
        _ => Err(bad(name)),
    }
}

fn take_timestamp(m: &mut Vec<(String, serde_json::Value)>, name: &str) -> (r: Result<
    Option<i64>,
    String,
>)
    requires
        unique_keys(members_of(old(m)@)),
    ensures
        unique_keys(members_of(final(m)@)),
        as_map(members_of(final(m)@)) == as_map(members_of(old(m)@)).remove(name@),
        match (r, timestamp_field(as_map(members_of(old(m)@)), name@)) {
            (Ok(s), Ok(t)) => s == t,
            (Err(e), Err(f)) => e@ == f,
            _ => false,
        },
{
    match take_member(m, name) {
        None => Ok(None),
        Some(Opened::Null) => Ok(None),
        Some(Opened::Uint(n)) => if n <= i64::MAX as u64 {
            Ok(Some(n as i64))
        } else {
            Err(bad(name))
        },
        Some(Opened::Int(n)) => Ok(Some(n)),
        _ => Err(bad(name)),
    }
}

fn take_payload(m: &mut Vec<(String, serde_json::Value)>, name: &str) -> (r: Result<
    Option<Vec<u8>>,
    String,
>)
    requires
        unique_keys(members_of(old(m)@)),
    ensures
        unique_keys(members_of(final(m)@)),
        as_map(members_of(final(m)@)) == as_map(members_of(old(m)@)).remove(name@),
        match (r, payload_field(as_map(members_of(old(m)@)), name@)) {
            (Ok(s), Ok(t)) => payload_view(s) == t,
            (Err(e), Err(f)) => e@ == f,
            _ => false,
        },
{
    match take_member(m, name) {
        None => Ok(None),
        Some(Opened::Null) => Ok(None),
        Some(Opened::Text(s)) => match decode_base64(s.as_str()) {
            Ok(b) => Ok(Some(b)),
            Err(e) => Err(e),
        },
        _ => Err(bad(name)),
    }
}

/// The members of an object, or the items of a list under the given
/// names.
fn members(o: Opened, names: &Vec<&str>) -> (r: Option<Vec<(String, serde_json::Value)>>)
    requires
        o matches Opened::Object(m) ==> unique_keys(members_of(m@)),
        forall|i: int, j: int| 0 <= i < j < names.len() ==> names@[i]@ != names@[j]@,
    ensures
        ({
            let all = names@.map_values(|n: &str| n@);
            &&& r is Some <==> fields_of(o.json(), all) is Some
            &&& r matches Some(m) ==> unique_keys(members_of(m@)) && fields_of(o.json(), all)
                == Some(as_map(members_of(m@)))
        }),
{
    match o {
        Opened::Object(m) => Some(m),
        Opened::List(l) => {
            if l.len() > names.len() {
                return None;
            }
            let ghost all = names@.map_values(|n: &str| n@);
            let ghost items = items_of(l@);
            let mut m: Vec<(String, serde_json::Value)> = Vec::new();
            for v in it: l
                invariant
                    it.seq() == l@,
                    items == items_of(l@),
                    l.len() <= names.len(),
                    all == names@.map_values(|n: &str| n@),
                    m.len() == it.index(),
                    forall|j: int|
                        0 <= j < m.len() ==> #[trigger] members_of(m@)[j] == (all[j], items[j]),
            {
                let ghost before = members_of(m@);
                let i: usize = m.len();
                m.push((names[i].to_owned(), v));
                assert forall|j: int| 0 <= j < m.len() implies #[trigger] members_of(m@)[j] == (
                    all[j],
                    items[j],
                ) by {
                    if j < i {
                        assert(before[j] == (all[j], items[j]));
                        assert(m@[j] == m@.drop_last()[j]);
                    }
                }
            }
            assert(members_of(m@) =~= Seq::new(items.len(), |i: int| (all[i], items[i])));
            Some(m)
        },
        _ => None,
    }
}

pub fn read_header(o: Opened) -> (r: Result<Header, String>)
    requires
        o matches Opened::Object(m) ==> unique_keys(members_of(m@)),
    ensures
        match (r, header_of(o.json())) {
            (Ok(h), Ok(x)) => h@ == x,
            (Err(e), Err(f)) => e@ == f,
            _ => false,
        },
{
    let names = vec!["key", "value"];
    proof {
        lemma_names();
        assert(names@.map_values(|n: &str| n@) =~= header_names());
    }
    let mut m = match members(o, &names) {
        Some(m) => m,
        None => {
            return Err("a header must be an object".to_owned());
        },
    };
    let ghost all = as_map(members_of(m@));
    let key = match take_text(&mut m, "key") {
        Ok(s) => s,
        Err(e) => {
            return Err(e);
        },
    };
    assert(field(all.remove("key"@), "value"@) == field(all, "value"@));
    match take_payload(&mut m, "value") {
        Ok(value) => Ok(Header { key, value }),
        Err(e) => Err(e),
    }
}

/// A fault in the first headers is the fault of all.
proof fn lemma_headers_fault(l: Seq<Json>, i: int)
    requires
        0 <= i <= l.len(),
        headers_of(l.take(i)) is Err,
    ensures
        headers_of(l) == headers_of(l.take(i)),
    decreases l.len() - i,
{
    if i < l.len() {
        assert(l.take(i + 1).drop_last() =~= l.take(i));
        lemma_headers_fault(l, i + 1);
    } else {
        assert(l.take(i) =~= l);
    }
}

fn read_headers(l: Vec<serde_json::Value>) -> (r: Result<Vec<Header>, String>)
    ensures
        match (r, headers_of(items_of(l@))) {
            (Ok(h), Ok(x)) => headers_view(h@) == x,
            (Err(e), Err(f)) => e@ == f,
            _ => false,
        },
{
    let ghost items = items_of(l@);
    let mut out: Vec<Header> = Vec::new();
    assert(items.take(0) =~= seq![]);
    assert(headers_view(out@) =~= seq![]);
    for v in it: l
        invariant
            it.seq() == l@,
            items == items_of(l@),
            headers_of(items.take(it.index())) matches Ok(x) && headers_view(out@) == x,
    {
        let ghost i = it.index();
        proof {
            assert(items.take(i + 1).drop_last() =~= items.take(i));
            assert(items.take(i + 1).last() == json_of(v));
        }
        match read_header(open_json(v)) {
            Ok(h) => {
                let ghost before = headers_view(out@);
                out.push(h);
                assert(headers_view(out@) =~= before.push(h@));
            },
            Err(e) => {
                proof {
                    lemma_headers_fault(items, i + 1);
                }
                return Err(e);
            },
        }
    }
    assert(items.take(items.len() as int) =~= items);
    Ok(out)
}

fn take_headers(m: &mut Vec<(String, serde_json::Value)>, name: &str) -> (r: Result<
    Vec<Header>,
    String,
>)
    requires
        unique_keys(members_of(old(m)@)),
    ensures
        match (r, headers_field(as_map(members_of(old(m)@)), name@)) {
            (Ok(h), Ok(x)) => headers_view(h@) == x,
            (Err(e), Err(f)) => e@ == f,
            _ => false,
        },
{
    match take_member(m, name) {
        None => {
            let none: Vec<Header> = Vec::new();
            assert(headers_view(none@) =~= seq![]);
            Ok(none)
        },
        Some(Opened::List(l)) => read_headers(l),
        _ => Err(bad(name)),
    }
}

/// The timestamp type of the given name.
pub fn timestamp_type_named(s: &str) -> (t: TimestampType)
    ensures
        t == type_named(s@),
{
    match TimestampType::from_wire(s) {
        Some(t) => {
            proof {
                crate::record::law_timestamp_type_names_are_distinct(t, TimestampType::CreateTime);
                crate::record::law_timestamp_type_names_are_distinct(
                    t,
                    TimestampType::LogAppendTime,
                );
            }
            t
        },
        None => TimestampType::NotAvailable,
    }
}

/// The record that a document stands for.
pub fn read_record(o: Opened) -> (r: Result<Record, String>)
    requires
        o matches Opened::Object(m) ==> unique_keys(members_of(m@)),
    ensures
        match (r, record_of(o.json())) {
            (Ok(rec), Ok(x)) => rec@ == x,
            (Err(e), Err(f)) => e@ == f,
            _ => false,
        },
{
    let names = vec![
        "topic",
        "partition",
        "offset",
        "timestamp_ms",
        "timestamp_type",
        "key",
        "value",
        "headers",
    ];
    proof {
        lemma_names();
        assert(names@.map_values(|n: &str| n@) =~= record_names());
    }
    let mut m = match members(o, &names) {
        Some(m) => m,
        None => {
            return Err("a record must be an object".to_owned());
        },
    };
    let ghost f0 = as_map(members_of(m@));
    let topic = match take_text(&mut m, "topic") {
        Ok(s) => s,
        Err(e) => {
            return Err(e);
        },
    };
    let partition: i32 = match take_member(&mut m, "partition") {
        Some(Opened::Uint(n)) => if n <= i32::MAX as u64 {
            n as i32
        } else {
            return Err(bad("partition"));
        },
        Some(Opened::Int(n)) => if n >= i32::MIN as i64 {
            n as i32
        } else {
            return Err(bad("partition"));
        },
        _ => {
            return Err(bad("partition"));
        },
    };
    let offset: u64 = match take_member(&mut m, "offset") {
        Some(Opened::Uint(n)) => n,
        _ => {
            return Err(bad("offset"));
        },
    };
    let timestamp_ms = match take_timestamp(&mut m, "timestamp_ms") {
        Ok(t) => t,
        Err(e) => {
            return Err(e);
        },
    };
    let kind = match take_text(&mut m, "timestamp_type") {
        Ok(s) => s,
        Err(e) => {
            return Err(e);
        },
    };
    let key = match take_payload(&mut m, "key") {
        Ok(b) => b,
        Err(e) => {
            return Err(e);
        },
    };
    let value = match take_payload(&mut m, "value") {
        Ok(b) => b,
        Err(e) => {
            return Err(e);
        },
    };
    let headers = match take_headers(&mut m, "headers") {
        Ok(h) => h,
        Err(e) => {
            return Err(e);
        },
    };
    Ok(
        Record {
            topic,
            partition,
            source_offset: offset,
            timestamp_ms,
            timestamp_type: timestamp_type_named(kind.as_str()),
            key,
            value,
            headers,
        },
    )
}

/// The bytes from `from` up to `to`.
fn sub_bytes(b: &[u8], from: usize, to: usize) -> (r: Vec<u8>)
    requires
        from <= to <= b@.len(),
    ensures
        r@ == b@.subrange(from as int, to as int),
{
    let mut r: Vec<u8> = Vec::new();
    let mut i: usize = from;
    while i < to
        invariant
            from <= i <= to <= b@.len(),
            r@ == b@.subrange(from as int, i as int),
        decreases to - i,
    {
        r.push(b[i]);
        i += 1;
        assert(r@ =~= b@.subrange(from as int, i as int));
    }
    r
}

/// The records that one line holds.
fn read_line(line: &Vec<u8>) -> (r: Result<Record, String>)
    ensures
        match (r, record_of_line(line@)) {
            (Ok(rec), Ok(x)) => rec@ == x,
            (Err(e), Err(f)) => e@ == f,
            _ => false,
        },
{
    match parse_json(line.as_slice()) {
        Ok(v) => read_record(open_json(v)),
        Err(e) => Err(e),
    }
}

/// `head` in front of what was read.
spec fn after_records(head: Seq<RecordView>, r: Result<Seq<RecordView>, Seq<char>>) -> Result<
    Seq<RecordView>,
    Seq<char>,
> {
    match r {
        Ok(t) => Ok(head + t),
        Err(e) => Err(e),
    }
}

/// Read records from lines.
///
/// A line is read as a JSON document before it is read as a record. So it
/// must be a document throughout, also in members that no record has, and a
/// member that occurs more than once counts with its last value.
pub fn decode_batch(bytes: &[u8]) -> (r: Result<Vec<Record>, EnvelopeError>)
    ensures
        match (r, records_of(bytes@)) {
            (Ok(v), Ok(x)) => records_view(v@) == x,
            (Err(EnvelopeError::Decode(e)), Err(f)) => e@ == f,
            _ => false,
        },
{
    let ghost whole = records_of(bytes@);
    let mut out: Vec<Record> = Vec::new();
    let mut start: usize = 0;
    let mut i: usize = 0;
    proof {
        assert(bytes@.skip(0) =~= bytes@);
        assert(records_view(out@) =~= seq![]);
        if let Ok(t) = whole {
            assert(Seq::<RecordView>::empty() + t =~= t);
        }
    }
    loop
        invariant
            start <= i <= bytes@.len(),
            whole == records_of(bytes@),
            whole == after_records(records_view(out@), records_of(bytes@.skip(start as int))),
            line_end(bytes@.skip(start as int)) == (i - start) + line_end(bytes@.skip(i as int)),
        decreases bytes@.len() - start, bytes@.len() - i,
    {
        let ghost rest = bytes@.skip(start as int);
        if i < bytes.len() && bytes[i] != 10 {
            assert(bytes@.skip(i as int).skip(1) =~= bytes@.skip(i + 1));
            i += 1;
            continue;
        }
        assert(line_end(rest) == i - start);
        let ghost done = records_view(out@);
        if i > start {
            let line = sub_bytes(bytes, start, i);
            assert(line@ =~= rest.take(i - start));
            match read_line(&line) {
                Ok(rec) => {
                    proof {
                        let tail = if i < bytes@.len() {
                            rest.skip(i - start + 1)
                        } else {
                            seq![]
                        };
                        if i < bytes@.len() {
                            assert(tail =~= bytes@.skip(i + 1));
                        } else {
                            assert(tail =~= bytes@.skip(i as int));
                        }
                        if let Ok(t) = records_of(tail) {
                            assert(done + (seq![rec@] + t) =~= done.push(rec@) + t);
                        }
                    }
                    out.push(rec);
                    assert(records_view(out@) =~= done.push(rec@));
                },
                Err(e) => {
                    return Err(EnvelopeError::Decode(e));
                },
            }
        } else if i < bytes.len() {
            assert(rest.skip(1) =~= bytes@.skip(i + 1));
        }
        if i == bytes.len() {
            proof {
                assert(bytes@.skip(i as int) =~= seq![]);
                assert(records_of(seq![]) == Ok::<Seq<RecordView>, Seq<char>>(seq![]));
                assert(records_view(out@) + Seq::<RecordView>::empty() =~= records_view(out@));
            }
            return Ok(out);
        }
        i += 1;
        start = i;
    }
}

// ---- what is written can be read ------------------------------------------------

/// Reading back the object of a header gives the header.
proof fn lemma_header_roundtrip(h: HeaderView)
    requires
        restorable_bytes(h.value),
    ensures
        header_of(header_json(h)) == Ok::<HeaderView, Seq<char>>(h),
{
    lemma_names();
    lemma_header_members(h);
}

proof fn lemma_headers_roundtrip(h: Seq<HeaderView>)
    requires
        forall|i: int| 0 <= i < h.len() ==> restorable_bytes((#[trigger] h[i]).value),
    ensures
        headers_of(h.map_values(|x: HeaderView| header_json(x))) == Ok::<
            Seq<HeaderView>,
            Seq<char>,
        >(h),
    decreases h.len(),
{
    let l = h.map_values(|x: HeaderView| header_json(x));
    if h.len() > 0 {
        let init = h.drop_last();
        assert forall|i: int| 0 <= i < init.len() implies restorable_bytes(
            (#[trigger] init[i]).value,
        ) by {
            assert(init[i] == h[i]);
        }
        lemma_headers_roundtrip(init);
        assert(l.drop_last() =~= init.map_values(|x: HeaderView| header_json(x)));
        let last = h[h.len() - 1];
        lemma_header_roundtrip(last);
        assert(init.push(h.last()) =~= h);
    } else {
        assert(l =~= seq![]);
        assert(h =~= seq![]);
    }
}

/// A record is what its object stands for.
pub proof fn law_object_gives_record_back(r: RecordView)
    requires
        restorable(r),
    ensures
        record_of(record_json(r)) == Ok::<RecordView, Seq<char>>(r),
{
    lemma_names();
    lemma_record_members(r);
    lemma_headers_roundtrip(r.headers);
    let m = record_fields(r);
    assert(field(m, "topic"@) == Some(Json::Text(r.topic)));
    assert(field(m, "partition"@) == Some(Json::Int(r.partition as int)));
    assert(field(m, "offset"@) == Some(Json::Int(r.source_offset as int)));
    assert(field(m, "timestamp_ms"@) == timestamp_json(r.timestamp_ms));
    assert(field(m, "timestamp_type"@) == Some(Json::Text(r.timestamp_type.wire_name())));
    assert(field(m, "key"@) == payload_json(r.key));
    assert(field(m, "value"@) == payload_json(r.value));
    assert(field(m, "headers"@) == headers_json(r.headers));
    crate::record::law_timestamp_type_names_are_distinct(
        r.timestamp_type,
        TimestampType::CreateTime,
    );
    crate::record::law_timestamp_type_names_are_distinct(
        r.timestamp_type,
        TimestampType::LogAppendTime,
    );
    if r.headers.len() == 0 {
        assert(r.headers =~= seq![]);
    }
}

pub(crate) proof fn lemma_line_end(line: Seq<u8>, rest: Seq<u8>)
    requires
        !line.contains(10u8),
    ensures
        line_end(line + seq![10u8] + rest) == line.len(),
    decreases line.len(),
{
    let b = line + seq![10u8] + rest;
    if line.len() > 0 {
        assert(line.contains(line[0]));
        assert forall|x: u8| line.skip(1).contains(x) implies line.contains(x) by {
            let i = line.skip(1).index_of(x);
            assert(line[i + 1] == x);
        }
        lemma_line_end(line.skip(1), rest);
        assert(b.skip(1) =~= line.skip(1) + seq![10u8] + rest);
        assert(b[0] == line[0]);
    } else {
        assert(b[0] == 10u8);
    }
}

/// What the first line adds to the records of the others.
spec fn line_then(first: Seq<u8>, rest: Result<Seq<RecordView>, Seq<char>>) -> Result<
    Seq<RecordView>,
    Seq<char>,
> {
    if first.len() == 0 {
        rest
    } else {
        match record_of_line(first) {
            Err(e) => Err(e),
            Ok(r) => match rest {
                Err(e) => Err(e),
                Ok(rs) => Ok(seq![r] + rs),
            },
        }
    }
}

proof fn lemma_first_line(first: Seq<u8>, rest: Seq<u8>)
    requires
        !first.contains(10u8),
    ensures
        records_of(first + seq![10u8] + rest) == line_then(first, records_of(rest)),
{
    let b = first + seq![10u8] + rest;
    lemma_line_end(first, rest);
    let end = first.len() as int;
    assert(b.take(end) =~= first);
    assert(b.skip(end + 1) =~= rest);
}

/// One more line adds one more record.
proof fn lemma_one_more_line(b: Seq<u8>, line: Seq<u8>, r: RecordView)
    requires
        b.len() == 0 || b.last() == 10u8,
        records_of(b) is Ok,
        line.len() > 0,
        !line.contains(10u8),
        record_of_line(line) == Ok::<RecordView, Seq<char>>(r),
    ensures
        records_of(b + line + seq![10u8]) == Ok::<Seq<RecordView>, Seq<char>>(
            records_of(b)->Ok_0.push(r),
        ),
    decreases b.len(),
{
    let t = b + line + seq![10u8];
    if b.len() == 0 {
        let none = Seq::<u8>::empty();
        assert(t =~= line + seq![10u8] + none);
        lemma_first_line(line, none);
        assert(records_of(none) == Ok::<Seq<RecordView>, Seq<char>>(seq![]));
        assert(seq![r] + Seq::<RecordView>::empty() =~= Seq::<RecordView>::empty().push(r));
        assert(b =~= none);
    } else {
        let end = line_end(b) as int;
        lemma_line_end_is_break(b);
        let first = b.take(end);
        let rest = b.skip(end + 1);
        let tail = rest + line + seq![10u8];
        assert(b =~= first + seq![10u8] + rest);
        assert(t =~= first + seq![10u8] + tail);
        lemma_first_line(first, rest);
        lemma_first_line(first, tail);
        if rest.len() > 0 {
            assert(rest.last() == b.last());
        }
        lemma_one_more_line(rest, line, r);
        lemma_line_then_push(first, records_of(rest)->Ok_0, r);
    }
}

proof fn lemma_line_then_push(first: Seq<u8>, rs: Seq<RecordView>, r: RecordView)
    requires
        line_then(first, Ok(rs)) is Ok,
    ensures
        line_then(first, Ok(rs.push(r))) == Ok::<Seq<RecordView>, Seq<char>>(
            line_then(first, Ok(rs))->Ok_0.push(r),
        ),
{
    if first.len() > 0 {
        let x = record_of_line(first)->Ok_0;
        assert(seq![x] + rs.push(r) =~= (seq![x] + rs).push(r));
    }
}

/// Bytes that end with a line break have a first one.
proof fn lemma_line_end_is_break(b: Seq<u8>)
    requires
        b.len() > 0,
        b.last() == 10u8,
    ensures
        line_end(b) < b.len(),
        b[line_end(b) as int] == 10u8,
        !b.take(line_end(b) as int).contains(10u8),
    decreases b.len(),
{
    if b[0] == 10u8 {
        assert(b.take(0) =~= seq![]);
    } else {
        let s = b.skip(1);
        assert(s.last() == b.last());
        lemma_line_end_is_break(s);
        let e = line_end(b) as int;
        assert forall|i: int| 0 <= i < e implies b.take(e)[i] != 10u8 by {
            if i > 0 {
                assert(s.take(e - 1)[i - 1] == b[i]);
                assert(s.take(e - 1).contains(b[i]));
            }
        }
    }
}

/// Write records as lines. Reading the lines gives the records back.
pub fn encode_batch(records: &Vec<Record>) -> (r: Result<Vec<u8>, EnvelopeError>)
    ensures
        r is Ok,
        r->Ok_0@ == lines_of(records_view(records@)),
        records_of(r->Ok_0@) == Ok::<Seq<RecordView>, Seq<char>>(records_view(records@)),
{
    let ghost all = records_view(records@);
    let mut out: Vec<u8> = Vec::new();
    let mut i: usize = 0;
    assert(all.take(0) =~= seq![]);
    while i < records.len()
        invariant
            i <= records.len(),
            all == records_view(records@),
            out@ == lines_of(all.take(i as int)),
            out@.len() == 0 || out@.last() == 10u8,
            records_of(out@) == Ok::<Seq<RecordView>, Seq<char>>(all.take(i as int)),
        decreases records.len() - i,
    {
        let v = record_value(&records[i]);
        let ghost rec = records@[i as int]@;
        proof {
            lemma_record_is_shallow(rec);
            law_object_gives_record_back(rec);
            assert(all.take(i + 1).drop_last() =~= all.take(i as int));
            assert(all.take(i + 1).last() == rec);
            assert(all.take(i as int).push(rec) =~= all.take(i + 1));
        }
        match write_json(&v) {
            Ok(line) => {
                let mut line = line;
                proof {
                    lemma_one_more_line(out@, line@, rec);
                }
                out.append(&mut line);
                out.push(10);
                assert(out@ =~= lines_of(all.take(i + 1)));
            },
            Err(e) => {
                return Err(EnvelopeError::Encode(e));
            },
        }
        i += 1;
    }
    assert(all.take(i as int) =~= all);
    Ok(out)
}

} // verus!
