//! JSON documents, as `serde_json` reads and writes them.
use vstd::prelude::*;
use vstd::utf8::valid_utf8;

use crate::assoc::unique_keys;

verus! {

/// A parsed JSON document.
#[verifier::external_type_specification]
#[verifier::external_body]
pub struct ExJsonValue(serde_json::Value);

/// The contents of a JSON document. Objects keep the order of their
/// members, and no two members of one object have the same name.
pub enum Json {
    Null,
    Bool(bool),
    /// A number without a fraction or an exponent, of at most 64 bits.
    Int(int),
    /// Any other number.
    Float,
    Text(Seq<char>),
    List(Seq<Json>),
    Object(Seq<(Seq<char>, Json)>),
}

/// The contents of a document.
pub uninterp spec fn json_of(v: serde_json::Value) -> Json;

/// The document that a line of bytes holds, or why it holds none.
pub uninterp spec fn json_parse(line: Seq<u8>) -> Result<Json, Seq<char>>;

/// The bytes that a document is written as.
pub uninterp spec fn json_bytes(j: Json) -> Seq<u8>;

/// A document, one level taken apart.
pub enum Opened {
    Null,
    Bool(bool),
    Uint(u64),
    Int(i64),
    Float,
    Text(String),
    List(Vec<serde_json::Value>),
    Object(Vec<(String, serde_json::Value)>),
}

/// The contents of a document's items.
pub open spec fn items_of(v: Seq<serde_json::Value>) -> Seq<Json> {
    v.map_values(|x: serde_json::Value| json_of(x))
}

/// The contents of a document's members.
pub open spec fn members_of(v: Seq<(String, serde_json::Value)>) -> Seq<(Seq<char>, Json)> {
    v.map_values(|x: (String, serde_json::Value)| (x.0@, json_of(x.1)))
}

impl Opened {
    pub open spec fn json(self) -> Json {
        match self {
            Opened::Null => Json::Null,
            Opened::Bool(b) => Json::Bool(b),
            Opened::Uint(n) => Json::Int(n as int),
            Opened::Int(n) => Json::Int(n as int),
            Opened::Float => Json::Float,
            Opened::Text(s) => Json::Text(s@),
            Opened::List(v) => Json::List(items_of(v@)),
            Opened::Object(v) => Json::Object(members_of(v@)),
        }
    }
}

/// The variants of `serde_json::Value`, with whole numbers as `u64` where
/// they are not negative and as `i64` where they are.
#[verifier::external_body]
pub(crate) fn open_json(v: serde_json::Value) -> (r: Opened)
    ensures
        r.json() == json_of(v),
        r matches Opened::Int(n) ==> n < 0,
        r matches Opened::Object(m) ==> distinct_members(members_of(m@)),
{
    match v {
        serde_json::Value::Null => Opened::Null,
        serde_json::Value::Bool(b) => Opened::Bool(b),
        serde_json::Value::Number(n) => match (n.as_u64(), n.as_i64()) {
            (Some(u), _) => Opened::Uint(u),
            (None, Some(i)) => Opened::Int(i),
            (None, None) => Opened::Float,
        },
        serde_json::Value::String(s) => Opened::Text(s),
        serde_json::Value::Array(v) => Opened::List(v),
        serde_json::Value::Object(m) => Opened::Object(m.into_iter().collect()),
    }
}

/// Whether no two members have the same name.
pub open spec fn distinct_members(v: Seq<(Seq<char>, Json)>) -> bool {
    unique_keys(v)
}

/// The variants of `serde_json::Value`, the other way round. The members
/// of an object keep their order.
#[verifier::external_body]
pub(crate) fn close_json(o: Opened) -> (r: serde_json::Value)
    requires
        !(o is Float),
        o matches Opened::Object(v) ==> distinct_members(members_of(v@)),
    ensures
        json_of(r) == o.json(),
{
    match o {
        Opened::Null | Opened::Float => serde_json::Value::Null,
        Opened::Bool(b) => serde_json::Value::Bool(b),
        Opened::Uint(n) => serde_json::Value::from(n),
        Opened::Int(n) => serde_json::Value::from(n),
        Opened::Text(s) => serde_json::Value::String(s),
        Opened::List(v) => serde_json::Value::Array(v),
        Opened::Object(v) => serde_json::Value::Object(v.into_iter().collect()),
    }
}

/// `serde_json::from_slice`: the document, or the parser's error as text.
#[verifier::external_body]
pub(crate) fn parse_json(line: &[u8]) -> (r: Result<serde_json::Value, String>)
    ensures
        match (r, json_parse(line@)) {
            (Ok(v), Ok(j)) => json_of(v) == j,
            (Err(e), Err(f)) => e@ == f,
            _ => false,
        },
{
    match serde_json::from_slice(line) {
        Ok(v) => Ok(v),
        Err(e) => Err(e.to_string()),
    }
}

/// A number of at most 64 bits, a text, or nothing.
pub open spec fn is_scalar(j: Json) -> bool {
    match j {
        Json::Null => true,
        Json::Bool(_) => true,
        Json::Int(n) => i64::MIN <= n <= u64::MAX,
        Json::Text(_) => true,
        _ => false,
    }
}

/// The names that records, headers and offsets give their members.
pub open spec fn is_written_name(name: Seq<char>) -> bool {
    ||| name == "topic"@
    ||| name == "partition"@
    ||| name == "offset"@
    ||| name == "timestamp_ms"@
    ||| name == "timestamp_type"@
    ||| name == "key"@
    ||| name == "value"@
    ||| name == "headers"@
}

/// An object of scalars under written names.
pub open spec fn is_flat(j: Json) -> bool {
    j matches Json::Object(m) && distinct_members(m) && forall|i: int|
        0 <= i < m.len() ==> is_written_name((#[trigger] m[i]).0) && is_scalar(m[i].1)
}

/// A list of flat objects.
pub open spec fn is_flat_list(j: Json) -> bool {
    j matches Json::List(l) && forall|k: int| 0 <= k < l.len() ==> is_flat(#[trigger] l[k])
}

/// An object of scalars and of lists of flat objects under written names,
/// or such a list.
pub open spec fn is_shallow(j: Json) -> bool {
    ||| is_flat_list(j)
    ||| j matches Json::Object(m) && distinct_members(m) && forall|i: int|
        0 <= i < m.len() ==> is_written_name((#[trigger] m[i]).0) && (is_scalar(m[i].1)
            || is_flat_list(m[i].1))
}

/// `serde_json::to_vec`: the document's bytes, which are UTF-8, hold no
/// line break and are not empty. The bytes of a shallow document depend on its
/// contents alone, and reading them gives it back. Of other documents
/// neither is claimed: the parser limits the depth and gives some names of
/// members, which start with `$serde_json`, a meaning of its own, and the
/// contents do not tell numbers with a fraction apart.
#[verifier::external_body]
pub(crate) fn write_json(v: &serde_json::Value) -> (r: Result<Vec<u8>, String>)
    ensures
        r is Ok,
        is_shallow(json_of(*v)) ==> r->Ok_0@ == json_bytes(json_of(*v)),
        r->Ok_0@.len() > 0,
        valid_utf8(r->Ok_0@),
        !r->Ok_0@.contains(10u8),
        is_shallow(json_of(*v)) ==> json_parse(r->Ok_0@) is Ok,
        is_shallow(json_of(*v)) ==> json_parse(r->Ok_0@)->Ok_0 == json_of(*v),
{
    match serde_json::to_vec(v) {
        Ok(b) => Ok(b),
        Err(e) => Err(e.to_string()),
    }
}

} // verus!
