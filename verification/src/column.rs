//! What a record column (`key` or `value`) is declared to hold.
use vstd::prelude::*;
use vstd::string::*;
use vstd::utf8::{decode_utf8, valid_utf8};

use crate::text::{dec, decimal};
use crate::utf8::{text_of_bytes, utf8_fault};

verus! {

/// Why a text is no JSON document, in the words of `serde_json`; `None`
/// where it is one.
pub uninterp spec fn json_fault(s: Seq<char>) -> Option<Seq<char>>;

/// `serde_json::from_str` into `IgnoredAny`: whether the text is one JSON
/// document, or the parser's error as text. It depends on the text alone.
#[verifier::external_body]
pub(crate) fn check_json(s: &str) -> (r: Result<(), String>)
    ensures
        r is Ok <==> json_fault(s@) is None,
        r matches Err(e) ==> json_fault(s@) == Some(e@),
{
    match serde_json::from_str::<serde::de::IgnoredAny>(s) {
        Ok(_) => Ok(()),
        Err(e) => Err(e.to_string()),
    }
}

/// What a column holds.
#[derive(Debug, Clone, Copy, PartialEq, Eq, Structural)]
pub enum ColumnType {
    /// Any bytes.
    Bytes,
    /// UTF-8 text.
    Utf8,
    /// UTF-8 text that claims to be JSON; it is not parsed.
    Json,
    /// UTF-8 text that parses as JSON.
    JsonParseable,
}

impl Default for ColumnType {
    fn default() -> (r: Self)
        ensures
            r == ColumnType::Utf8,
    {
        ColumnType::Utf8
    }
}

/// A column's payload is not text, for the given reason.
pub open spec fn not_utf8(column: Seq<char>, offset: u64, reason: Seq<char>) -> Seq<char> {
    column + " at source offset "@ + dec(offset as nat) + " is not valid UTF-8: "@ + reason
}

/// A column's payload is no JSON document, for the given reason.
pub open spec fn not_json(column: Seq<char>, offset: u64, reason: Seq<char>) -> Seq<char> {
    column + " at source offset "@ + dec(offset as nat) + " is not parseable JSON: "@ + reason
}

/// What is wrong with a payload, if anything.
pub open spec fn column_fault(
    kind: ColumnType,
    column: Seq<char>,
    offset: u64,
    payload: Option<Seq<u8>>,
) -> Option<Seq<char>> {
    match payload {
        None => None,
        Some(b) => if kind == ColumnType::Bytes {
            None
        } else if !valid_utf8(b) {
            Some(not_utf8(column, offset, utf8_fault(b)))
        } else if kind == ColumnType::JsonParseable {
            match json_fault(decode_utf8(b)) {
                Some(e) => Some(not_json(column, offset, e)),
                None => None,
            }
        } else {
            None
        },
    }
}

/// The verdict on a payload that is text, given what the JSON parser said.
pub fn json_verdict(column: &str, source_offset: u64, parsed: Result<(), String>) -> (r: Result<
    (),
    String,
>)
    ensures
        r is Ok <==> parsed is Ok,
        r matches Err(m) ==> parsed matches Err(e) && m@ == not_json(column@, source_offset, e@),
{
    match parsed {
        Ok(_) => Ok(()),
        Err(e) => Err(
            column.to_owned().concat(" at source offset ").concat(
                decimal(source_offset).as_str(),
            ).concat(" is not parseable JSON: ").concat(e.as_str()),
        ),
    }
}

impl ColumnType {
    /// Check a payload against what the column is declared to hold. A
    /// missing payload is always fine.
    pub fn validate(&self, column: &str, source_offset: u64, payload: Option<&[u8]>) -> (r: Result<
        (),
        String,
    >)
        ensures
            ({
                let bytes = match payload {
                    Some(b) => Some(b@),
                    None => None,
                };
                let fault = column_fault(*self, column@, source_offset, bytes);
                &&& r is Ok <==> fault is None
                &&& r matches Err(m) ==> fault == Some(m@)
            }),
    {
        let bytes = match payload {
            Some(b) => b,
            None => {
                return Ok(());
            },
        };
        if matches!(self, ColumnType::Bytes) {
            return Ok(());
        }
        let text = match text_of_bytes(bytes) {
            Ok(s) => s,
            Err(e) => {
                return Err(
                    column.to_owned().concat(" at source offset ").concat(
                        decimal(source_offset).as_str(),
                    ).concat(" is not valid UTF-8: ").concat(e.as_str()),
                );
            },
        };
        match self {
            ColumnType::JsonParseable => json_verdict(column, source_offset, check_json(text)),
            _ => Ok(()),
        }
    }
}

/// Text that passes as JSON passes as text, and text passes as bytes: each
/// kind takes no more than the one before it.
pub proof fn law_kinds_are_nested(column: Seq<char>, offset: u64, payload: Option<Seq<u8>>)
    ensures
        column_fault(ColumnType::JsonParseable, column, offset, payload) is None ==> column_fault(
            ColumnType::Json,
            column,
            offset,
            payload,
        ) is None,
        column_fault(ColumnType::Json, column, offset, payload) == column_fault(
            ColumnType::Utf8,
            column,
            offset,
            payload,
        ),
        column_fault(ColumnType::Bytes, column, offset, payload) is None,
        column_fault(ColumnType::Utf8, column, offset, None) is None,
        column_fault(ColumnType::JsonParseable, column, offset, None) is None,
{
}

} // verus!
