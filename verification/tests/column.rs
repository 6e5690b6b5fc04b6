//! What a column takes.
use mirror_v3::column::ColumnType;

#[test]
fn null_payload_always_validates() {
    for ct in [
        ColumnType::Bytes,
        ColumnType::Utf8,
        ColumnType::Json,
        ColumnType::JsonParseable,
    ] {
        assert!(ct.validate("key", 7, None).is_ok(), "ct={ct:?}");
    }
}

#[test]
fn bytes_accepts_anything() {
    assert!(ColumnType::Bytes
        .validate("value", 0, Some(&[0xff, 0xfe, 0xfd]))
        .is_ok());
}

#[test]
fn utf8_rejects_non_utf8_with_offending_offset() {
    let err = ColumnType::Utf8
        .validate("value", 42, Some(&[0xff]))
        .expect_err("must reject");
    assert!(err.contains("value") && err.contains("offset 42") && err.contains("UTF-8"));
}

#[test]
fn json_does_not_parse_payload() {
    // Valid UTF-8 but not parseable JSON — Json must accept it.
    assert!(ColumnType::Json
        .validate("value", 0, Some(b"{this is not json"))
        .is_ok());
}

#[test]
fn json_parseable_accepts_valid_json() {
    for payload in [
        br#"{"a":1}"#.as_slice(),
        br#"[]"#.as_slice(),
        br#""s""#.as_slice(),
        br#"42"#.as_slice(),
        br#"null"#.as_slice(),
    ] {
        assert!(
            ColumnType::JsonParseable
                .validate("value", 0, Some(payload))
                .is_ok(),
            "valid JSON rejected: {:?}",
            std::str::from_utf8(payload)
        );
    }
}

#[test]
fn json_parseable_rejects_malformed_json() {
    let err = ColumnType::JsonParseable
        .validate("value", 5, Some(b"{unbalanced"))
        .expect_err("must reject");
    assert!(
        err.contains("value") && err.contains("offset 5") && err.contains("parseable JSON")
    );
}

#[test]
fn json_parseable_reports_utf8_error_before_json_error() {
    let err = ColumnType::JsonParseable
        .validate("value", 9, Some(&[0xff]))
        .expect_err("must reject");
    assert!(
        err.contains("UTF-8") && !err.contains("parseable JSON"),
        "got: {err}"
    );
}

#[test]
fn refusals_name_the_column_and_the_offset() {
    assert_eq!(
        ColumnType::Utf8.validate("key", 3, Some(&[b'a', 0xff])),
        Err(
            "key at source offset 3 is not valid UTF-8: invalid utf-8 sequence of 1 bytes from \
             index 1"
                .to_string()
        )
    );
    assert_eq!(
        ColumnType::JsonParseable.validate("value", 3, Some(b"[1,")),
        Err(
            "value at source offset 3 is not parseable JSON: EOF while parsing a value at line 1 \
             column 3"
                .to_string()
        )
    );
}
