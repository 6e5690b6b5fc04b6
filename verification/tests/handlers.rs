//! Answers of the read interface.
use mirror_v3::cache::CacheState;
use mirror_v3::http::{respond, HttpResponse, ReadRequest, KKV_OFFSETS_HEADER};
use mirror_v3::record::{Header, Record, TimestampType};

fn rec(topic: &str, partition: i32, offset: u64, key: &str, value: Option<&[u8]>) -> Record {
    Record {
        topic: topic.into(),
        partition,
        source_offset: offset,
        timestamp_ms: Some(1_700_000_000_000),
        timestamp_type: TimestampType::CreateTime,
        key: Some(key.as_bytes().to_vec()),
        value: value.map(|v| v.to_vec()),
        headers: Vec::<Header>::new(),
    }
}

/// The request that a path stands for.
fn request(path: &str) -> ReadRequest {
    if path == "/q/health/ready" {
        return ReadRequest::Ready;
    }
    let parts: Vec<&str> = path
        .strip_prefix("/cache/v1/")
        .expect("a path of the read interface")
        .split('/')
        .collect();
    let verbs = ["raw", "offset", "keys", "values"];
    let (mirror, rest) = if verbs.contains(&parts[0]) {
        (None, &parts[..])
    } else {
        (Some(parts[0].to_string()), &parts[1..])
    };
    match rest {
        ["raw", key] => ReadRequest::Raw {
            mirror,
            key: key.to_string(),
        },
        ["offset", topic, partition] => ReadRequest::Offset {
            mirror,
            topic: topic.to_string(),
            partition: partition.parse().unwrap(),
        },
        ["keys"] => ReadRequest::Keys { mirror },
        ["values"] => ReadRequest::Values { mirror },
        other => panic!("no request: {other:?}"),
    }
}

fn get(cache: &CacheState, path: &str) -> HttpResponse {
    respond(cache, &request(path))
}

#[test]
fn raw_returns_503_until_caught_up() {
    let mut cache = CacheState::new();
    cache.register_mirror("ops", 2, None, true); // needs offsets 0..=1; main mirror
    let resp = get(&cache, "/cache/v1/raw/k0");
    assert_eq!(resp.status, 503);

    cache.apply_record("ops", &rec("ops", 0, 0, "k0", Some(b"v0")));
    cache.apply_record("ops", &rec("ops", 0, 1, "k1", Some(b"v1")));
    let resp = get(&cache, "/cache/v1/raw/k0");
    assert_eq!(resp.status, 200);
    assert!(resp.offsets.is_some());
    assert_eq!(resp.body, b"v0");
}

#[test]
fn raw_404_for_missing_key() {
    let mut cache = CacheState::new();
    cache.register_mirror("m", 0, None, true); // empty topic → immediately ready
    let resp = get(&cache, "/cache/v1/raw/absent");
    assert_eq!(resp.status, 404);
}

#[test]
fn tombstone_makes_key_404() {
    let mut cache = CacheState::new();
    cache.register_mirror("m", 2, None, true);
    cache.apply_record("m", &rec("t", 0, 0, "alice", Some(br#"{"v":1}"#)));
    cache.apply_record("m", &rec("t", 0, 1, "alice", None)); // tombstone
    let resp = get(&cache, "/cache/v1/raw/alice");
    assert_eq!(resp.status, 404);
}

#[test]
fn keys_and_values_are_newline_terminated_in_insertion_order() {
    let mut cache = CacheState::new();
    cache.register_mirror("m", 0, None, true);
    cache.apply_record("m", &rec("t", 0, 0, "b", Some(b"vb")));
    cache.apply_record("m", &rec("t", 0, 1, "a", Some(b"va")));
    cache.apply_record("m", &rec("t", 0, 2, "c", Some(b"vc")));

    let resp = get(&cache, "/cache/v1/keys");
    assert_eq!(resp.status, 200);
    assert!(resp.offsets.is_some());
    assert_eq!(
        resp.content_type.as_deref(),
        Some("application/octet-stream"),
        "/keys content-type matches KKV"
    );
    let body = String::from_utf8(resp.body).unwrap();
    assert_eq!(
        body, "b\na\nc\n",
        "insertion order; every line ends with \\n"
    );

    let resp = get(&cache, "/cache/v1/values");
    assert_eq!(resp.status, 200);
    let body = resp.body;
    assert_eq!(body, b"vb\nva\nvc\n");
}

#[test]
fn offset_endpoint_returns_decimal_or_empty() {
    let mut cache = CacheState::new();
    cache.register_mirror("m", 0, None, true);
    cache.apply_record("m", &rec("orders", 1, 7, "k", Some(b"v")));

    let resp = get(&cache, "/cache/v1/offset/orders/1");
    assert_eq!(resp.status, 200);
    let body = String::from_utf8(resp.body).unwrap();
    assert_eq!(body, "7");

    // Unknown partition: empty body, 200.
    let resp = get(&cache, "/cache/v1/offset/orders/99");
    assert_eq!(resp.status, 200);
    let body = String::from_utf8(resp.body).unwrap();
    assert!(body.is_empty(), "got: {body:?}");
}

#[test]
fn offsets_header_contents_match_snapshot() {
    let mut cache = CacheState::new();
    cache.register_mirror("m", 0, None, true);
    cache.apply_record("m", &rec("orders", 0, 5, "k", Some(b"v")));
    cache.apply_record("m", &rec("orders", 1, 3, "k2", Some(b"v")));
    let resp = get(&cache, "/cache/v1/keys");
    let value = resp.offsets.expect("offsets header present");
    let parsed: Vec<serde_json::Value> = serde_json::from_str(&value).unwrap();
    assert_eq!(parsed.len(), 2);
    assert_eq!(parsed[0]["topic"], "orders");
    assert_eq!(parsed[0]["partition"], 0);
    assert_eq!(parsed[0]["offset"], 5);
    assert_eq!(parsed[1]["partition"], 1);
    assert_eq!(parsed[1]["offset"], 3);
}

#[test]
fn q_health_ready_returns_503_until_caught_up_then_200() {
    let mut cache = CacheState::new();
    cache.register_mirror("userstate", 2, None, true); // needs offsets 0..=1; main mirror

    let resp = get(&cache, "/q/health/ready");
    assert_eq!(resp.status, 503);

    cache.apply_record("userstate", &rec("userstate", 0, 0, "k0", Some(b"v0")));
    cache.apply_record("userstate", &rec("userstate", 0, 1, "k1", Some(b"v1")));

    let resp = get(&cache, "/q/health/ready");
    assert_eq!(resp.status, 200);
    assert!(resp.body.is_empty());
}

#[test]
fn per_mirror_paths_serve_only_that_mirrors_view() {
    // Two mirrors, each with its own keyspace. Hitting one mirror's
    // /raw/{key} must not surface the other's keys, and vice-versa.
    // Neither is `cache-v1-main`; the unprefixed paths must 404.
    let mut cache = CacheState::new();
    cache.register_mirror("a", 0, None, false);
    cache.register_mirror("b", 0, None, false);
    cache.apply_record("a", &rec("topic-a", 0, 0, "k-a", Some(b"va")));
    cache.apply_record("b", &rec("topic-b", 0, 0, "k-b", Some(b"vb")));

    let resp = get(&cache, "/cache/v1/a/raw/k-a");
    assert_eq!(resp.status, 200);
    assert_eq!(resp.body, b"va");

    // Cross-mirror miss: mirror b doesn't have k-a.
    let resp = get(&cache, "/cache/v1/b/raw/k-a");
    assert_eq!(resp.status, 404);

    // No cache-v1-main: unprefixed paths route to nothing.
    let resp = get(&cache, "/cache/v1/raw/k-a");
    assert_eq!(
        resp.status,
        404,
        "no main mirror => unprefixed path not mounted"
    );
}

#[test]
fn per_mirror_path_unknown_mirror_is_404() {
    let mut cache = CacheState::new();
    cache.register_mirror("real", 0, None, false);
    let resp = get(&cache, "/cache/v1/missing/raw/anything");
    assert_eq!(resp.status, 404);
}

#[test]
fn per_mirror_path_503_until_that_mirror_caught_up() {
    // Per-mirror readiness gates each route independently: one
    // mirror can already serve while the other is still warming up.
    let mut cache = CacheState::new();
    cache.register_mirror("ready-now", 0, None, false); // hwm 0 => ready
    cache.register_mirror("warming", 2, None, false); // needs offsets 0..=1

    let resp = get(&cache, "/cache/v1/ready-now/keys");
    assert_eq!(resp.status, 200);

    let resp = get(&cache, "/cache/v1/warming/keys");
    assert_eq!(resp.status, 503);
}

#[test]
fn unprefixed_paths_dispatch_to_main_mirror_view() {
    // Two mirrors; `main-m` is cache-v1-main. The unprefixed
    // /cache/v1/keys must return main-m's keys only.
    let mut cache = CacheState::new();
    cache.register_mirror("main-m", 0, None, true);
    cache.register_mirror("other", 0, None, false);
    cache.apply_record("main-m", &rec("t", 0, 0, "main-key", Some(b"vm")));
    cache.apply_record("other", &rec("t", 0, 0, "other-key", Some(b"vo")));

    let resp = get(&cache, "/cache/v1/keys");
    assert_eq!(resp.status, 200);
    assert_eq!(resp.body, b"main-key\n");

    let resp = get(&cache, "/cache/v1/raw/other-key");
    assert_eq!(
        resp.status,
        404,
        "unprefixed path does not fall through to the non-main mirror"
    );
}

#[test]
fn offsets_are_told_in_one_header() {
    assert_eq!(KKV_OFFSETS_HEADER, "x-kkv-last-seen-offsets");
    let mut cache = CacheState::new();
    cache.register_mirror("m", 0, None, true);
    assert_eq!(get(&cache, "/cache/v1/keys").offsets.as_deref(), Some("[]"));
    cache.apply_record("m", &rec("b", 2, 5, "k", Some(b"v")));
    cache.apply_record("m", &rec("a", 0, 7, "k", Some(b"w")));
    assert_eq!(
        get(&cache, "/cache/v1/raw/k").offsets.as_deref(),
        Some(
            "[{\"offset\":7,\"partition\":0,\"topic\":\"a\"},\
             {\"offset\":5,\"partition\":2,\"topic\":\"b\"}]"
        )
    );
}

#[test]
fn empty_names_are_bad_requests() {
    let mut cache = CacheState::new();
    cache.register_mirror("m", 0, None, true);
    assert_eq!(get(&cache, "/cache/v1/raw/").status, 400);
    assert_eq!(get(&cache, "/cache/v1/offset//0").status, 400);
}
