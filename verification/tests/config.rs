//! The rules that a configuration keeps, and the text it is read from.
use mirror_v3::config::{
    ColumnConfig, ColumnType, Compaction, Config, DailyFlush, Destination, DestinationFormat,
    FanOut, FilesystemDestination, FinalAction, FlushTriggers, HttpAccess, HttpAccessApi,
    KafkaDestination, KafkaSource, LoadError, Mirror, Notify, NotifyApi, NotifyDebounce,
    NotifyOutcome, NotifyOutcomes, NotifyRetry, NotifyTarget, NotifyTrigger, ParquetCompression,
    S3Destination, TimestampMode, TriggerOn, DEFAULT_NOTIFY_TIMEOUT_MS,
};
use mirror_v3::envsubst::OsEnv;
use mirror_v3::validate::{accept_config, config_text, expand_config, validate};

fn mirror(name: &str, topic: &str, destinations: Vec<Destination>) -> Mirror {
    Mirror {
        name: name.into(),
        source: KafkaSource {
            bootstrap_servers: "kafka:9092".into(),
            group_id: None,
        },
        topic: topic.into(),
        partition: 0,
        destinations,
        format: None,
        compression: None,
        keys: None,
        values: None,
        compaction: None,
        flush: None,
        timestamp_mode: None,
        http_access: None,
        enabled: None,
        notify: None,
    }
}

fn kafka(name: Option<&str>) -> Destination {
    Destination::Kafka(KafkaDestination {
        name: name.map(String::from),
        bootstrap_servers: "redpanda:9092".into(),
        topic: None,
    })
}

fn filesystem(name: Option<&str>, root: &str) -> Destination {
    Destination::Filesystem(FilesystemDestination {
        name: name.map(String::from),
        root: root.into(),
    })
}

fn flush() -> Option<FlushTriggers> {
    Some(FlushTriggers {
        max_time_ms: 5000,
        max_bytes: 1000,
        max_offsets: 100,
        daily: None,
    })
}

fn cache_v1() -> Option<HttpAccess> {
    Some(HttpAccess {
        api: HttpAccessApi::CacheV1,
    })
}

/// A notify block with nothing but its targets set.
fn notify(urls: &[&str]) -> Notify {
    Notify {
        api: NotifyApi::KkvV1,
        targets: urls
            .iter()
            .map(|url| NotifyTarget {
                url: url.to_string(),
                path: None,
                fan_out: FanOut::default(),
            })
            .collect(),
        trigger: NotifyTrigger::default(),
        timeout_ms: DEFAULT_NOTIFY_TIMEOUT_MS,
        retry: NotifyRetry::default(),
        outcomes: NotifyOutcomes::default(),
    }
}

/// A mirror with a directory, read access and the given notify block.
fn with_notify(n: Notify) -> Mirror {
    Mirror {
        format: Some(DestinationFormat::Parquet),
        compression: Some(ParquetCompression::Zstd1),
        http_access: cache_v1(),
        flush: flush(),
        notify: Some(n),
        ..mirror(
            "events",
            "events-stream",
            vec![filesystem(None, "/var/mirror")],
        )
    }
}

/// A mirror without destinations and with the given notify block.
fn notify_only(n: Notify) -> Mirror {
    Mirror {
        notify: Some(n),
        ..mirror("invalidator", "events", vec![])
    }
}

fn load(mirrors: Vec<Mirror>) -> Result<Config, LoadError> {
    accept_config(Ok(Config { mirrors }))
}

fn refusal(mirrors: Vec<Mirror>) -> String {
    let err = load(mirrors).expect_err("must be rejected");
    assert!(matches!(err, LoadError::Validation(_)));
    err.message()
}

#[test]
fn parses_minimal_kafka_config() {
    let cfg = load(vec![Mirror {
        source: KafkaSource {
            bootstrap_servers: "kafka-source:9092".into(),
            group_id: None,
        },
        ..mirror("operations", "operations-v1", vec![kafka(None)])
    }])
    .expect("must be accepted");
    let dest = &cfg.mirrors[0].destinations[0];
    assert_eq!(dest.effective_name(&cfg.mirrors[0].name), "operations");
    assert!(cfg.mirrors[0].is_enabled());
}

#[test]
fn kafka_destination_topic_override_parses() {
    let cfg = load(vec![mirror(
        "archive",
        "orders",
        vec![Destination::Kafka(KafkaDestination {
            name: None,
            bootstrap_servers: "backup:9092".into(),
            topic: Some("orders-backup".into()),
        })],
    )])
    .expect("must be accepted");
    match &cfg.mirrors[0].destinations[0] {
        Destination::Kafka(k) => assert_eq!(k.topic.as_deref(), Some("orders-backup")),
        _ => panic!("expected kafka destination"),
    }
}

#[test]
fn parses_filesystem_destination_with_per_mirror_encoding() {
    let cfg = load(vec![Mirror {
        flush: Some(FlushTriggers {
            max_time_ms: 5000,
            max_bytes: 1_048_576,
            max_offsets: 1000,
            daily: None,
        }),
        ..mirror(
            "operations",
            "operations-v1",
            vec![filesystem(None, "/var/mirror-v3")],
        )
    }])
    .expect("must be accepted");
    assert!(cfg.mirrors[0].destinations[0].is_blob());
}

#[test]
fn parses_s3_destination_with_endpoint_only() {
    let cfg = load(vec![Mirror {
        flush: Some(FlushTriggers {
            max_time_ms: 60000,
            max_bytes: 16_777_216,
            max_offsets: 10000,
            daily: None,
        }),
        ..mirror(
            "operations",
            "operations-v1",
            vec![Destination::S3(S3Destination {
                name: None,
                endpoint: Some("http://versitygw:7070".into()),
                region: "us-east-1".into(),
                bucket: "mirror-v3".into(),
                prefix: Some("archive/".into()),
            })],
        )
    }])
    .expect("must be accepted");
    assert!(cfg.mirrors[0].destinations[0].is_blob());
}

#[test]
fn tee_fs_and_s3_with_explicit_names_parses() {
    let cfg = load(vec![Mirror {
        format: Some(DestinationFormat::Parquet),
        flush: flush(),
        ..mirror(
            "orders",
            "orders",
            vec![
                filesystem(Some("local-archive"), "/var/mirror"),
                Destination::S3(S3Destination {
                    name: Some("offsite-archive".into()),
                    endpoint: None,
                    region: "us-east-1".into(),
                    bucket: "orders-archive".into(),
                    prefix: None,
                }),
            ],
        )
    }])
    .expect("must be accepted");
    assert_eq!(cfg.mirrors[0].destinations.len(), 2);
    assert_eq!(
        cfg.mirrors[0].destinations[0].effective_name(&cfg.mirrors[0].name),
        "local-archive"
    );
    assert_eq!(
        cfg.mirrors[0].destinations[1].effective_name(&cfg.mirrors[0].name),
        "offsite-archive"
    );
}

#[test]
fn parses_two_mirrors_with_distinct_encoding() {
    let orders = Mirror {
        format: Some(DestinationFormat::Parquet),
        compression: Some(ParquetCompression::Zstd1),
        values: Some(ColumnConfig {
            kind: ColumnType::Json,
        }),
        flush: flush(),
        ..mirror("orders", "orders", vec![filesystem(None, "/cache")])
    };
    let user_states = Mirror {
        format: Some(DestinationFormat::Parquet),
        compression: Some(ParquetCompression::Zstd1),
        compaction: Some(Compaction::Log),
        flush: flush(),
        ..mirror("user-states", "user-states", vec![filesystem(None, "/cache")])
    };
    let cfg = load(vec![orders, user_states]).expect("must be accepted");
    assert_eq!(cfg.mirrors.len(), 2);
}

#[test]
fn encoding_fields_forbidden_for_kafka_only_mirrors() {
    let msg = refusal(vec![Mirror {
        format: Some(DestinationFormat::Parquet),
        ..mirror("operations", "operations-v1", vec![kafka(None)])
    }]);
    assert!(
        msg.contains("format") && msg.contains("filesystem/s3"),
        "got: {msg}"
    );
    assert_eq!(
        msg,
        "invalid config: mirror \"operations\": `format` is only valid when at least one \
         destination is filesystem/s3"
    );
}

#[test]
fn timestamp_mode_forbidden_when_no_kafka_destination() {
    let msg = refusal(vec![Mirror {
        timestamp_mode: Some(TimestampMode::Destination),
        flush: flush(),
        ..mirror("operations", "ops", vec![filesystem(None, "/tmp/mirror")])
    }]);
    assert!(
        msg.contains("timestamp-mode") && msg.contains("Kafka"),
        "got: {msg}"
    );
}

#[test]
fn flush_required_for_blob_destinations() {
    let msg = refusal(vec![mirror(
        "operations",
        "ops",
        vec![filesystem(None, "/tmp/mirror")],
    )]);
    assert!(
        msg.contains("flush") && msg.contains("required"),
        "got: {msg}"
    );
}

#[test]
fn parses_kafka_destination_with_per_mirror_timestamp_mode() {
    load(vec![Mirror {
        timestamp_mode: Some(TimestampMode::Destination),
        ..mirror("operations", "ops", vec![kafka(None)])
    }])
    .expect("must be accepted");
}

#[test]
fn compaction_log_with_default_keys_parses() {
    let cfg = load(vec![Mirror {
        compaction: Some(Compaction::Log),
        flush: flush(),
        ..mirror("states", "states", vec![filesystem(None, "/tmp/mirror")])
    }])
    .expect("must be accepted");
    assert_eq!(cfg.mirrors[0].compaction, Some(Compaction::Log));
    assert_eq!(cfg.mirrors[0].keys, None);
}

#[test]
fn compaction_log_requires_parquet_format() {
    let msg = refusal(vec![Mirror {
        format: Some(DestinationFormat::Ndjson),
        compaction: Some(Compaction::Log),
        flush: flush(),
        ..mirror("states", "states", vec![filesystem(None, "/tmp/mirror")])
    }]);
    assert!(
        msg.contains("compaction") && msg.contains("parquet"),
        "got: {msg}"
    );
}

#[test]
fn keys_and_values_default_to_utf8() {
    assert_eq!(
        ColumnConfig::default(),
        ColumnConfig {
            kind: ColumnType::Utf8
        }
    );
    load(vec![Mirror {
        keys: Some(ColumnConfig::default()),
        values: Some(ColumnConfig::default()),
        flush: flush(),
        ..mirror("ops", "ops", vec![filesystem(None, "/tmp/mirror")])
    }])
    .expect("must be accepted");
}

#[test]
fn keys_bytes_base64_parses() {
    load(vec![Mirror {
        keys: Some(ColumnConfig {
            kind: ColumnType::Bytes,
        }),
        flush: flush(),
        ..mirror("ops", "ops", vec![filesystem(None, "/tmp/mirror")])
    }])
    .expect("must be accepted");
}

#[test]
fn ndjson_rejects_non_default_keys_or_values() {
    let msg = refusal(vec![Mirror {
        format: Some(DestinationFormat::Ndjson),
        values: Some(ColumnConfig {
            kind: ColumnType::Json,
        }),
        flush: flush(),
        ..mirror("ops", "ops", vec![filesystem(None, "/tmp/mirror")])
    }]);
    assert!(
        msg.contains("ndjson") && msg.contains("parquet"),
        "got: {msg}"
    );
}

#[test]
fn duplicate_mirror_names_are_rejected() {
    let second = Mirror {
        partition: 1,
        ..mirror("ops", "ops", vec![kafka(None)])
    };
    let msg = refusal(vec![mirror("ops", "ops", vec![kafka(None)]), second]);
    assert!(
        msg.contains("ops") && msg.contains("more than once"),
        "got: {msg}"
    );
}

#[test]
fn multiple_mirrors_parse() {
    let first = Mirror {
        flush: flush(),
        ..mirror(
            "ops-p0",
            "operations-v1",
            vec![filesystem(None, "/var/mirror-v3")],
        )
    };
    let second = Mirror {
        partition: 1,
        flush: flush(),
        ..mirror(
            "ops-p1",
            "operations-v1",
            vec![filesystem(None, "/var/mirror-v3")],
        )
    };
    let cfg = load(vec![first, second]).expect("must be accepted");
    assert_eq!(cfg.mirrors.len(), 2);
    assert_eq!(cfg.mirrors[1].partition, 1);
}

#[test]
fn http_access_cache_v1_parses() {
    load(vec![Mirror {
        http_access: cache_v1(),
        flush: flush(),
        ..mirror(
            "user-states",
            "user-states",
            vec![filesystem(None, "/tmp/mirror")],
        )
    }])
    .expect("must be accepted");
}

#[test]
fn at_most_one_mirror_is_the_main_one() {
    let readable = |name: &str, api: HttpAccessApi| Mirror {
        http_access: Some(HttpAccess { api }),
        flush: flush(),
        ..mirror(name, name, vec![filesystem(None, "/tmp/mirror")])
    };
    let cfg = load(vec![
        readable("a", HttpAccessApi::CacheV1),
        readable("b", HttpAccessApi::CacheV1Main),
    ])
    .expect("must be accepted");
    assert!(!cfg.mirrors[0].is_main());
    assert!(cfg.mirrors[1].is_main());
    let msg = refusal(vec![
        readable("a", HttpAccessApi::CacheV1Main),
        readable("b", HttpAccessApi::CacheV1),
        readable("c", HttpAccessApi::CacheV1Main),
    ]);
    assert!(
        msg.ends_with(
            "mirror \"c\": `http-access: { api: cache-v1-main }` is only valid on one mirror"
        ),
        "got: {msg}"
    );
}

#[test]
fn http_access_forbidden_for_kafka_only_mirrors() {
    let msg = refusal(vec![Mirror {
        http_access: cache_v1(),
        ..mirror("operations", "ops", vec![kafka(None)])
    }]);
    assert!(
        msg.contains("http-access") && msg.contains("filesystem/s3"),
        "got: {msg}"
    );
}

#[test]
fn http_access_rejects_bytes_keys() {
    let msg = refusal(vec![Mirror {
        keys: Some(ColumnConfig {
            kind: ColumnType::Bytes,
        }),
        http_access: cache_v1(),
        flush: flush(),
        ..mirror("ops", "ops", vec![filesystem(None, "/tmp/mirror")])
    }]);
    assert!(
        msg.contains("http-access") && msg.contains("utf8"),
        "got: {msg}"
    );
}

#[test]
fn http_access_works_without_compaction() {
    let cfg = load(vec![Mirror {
        http_access: cache_v1(),
        flush: flush(),
        ..mirror("cache-only", "orders", vec![filesystem(None, "/tmp/mirror")])
    }])
    .expect("must be accepted");
    assert_eq!(cfg.mirrors[0].compaction, None);
    assert!(cfg.mirrors[0].http_access.is_some());
}

#[test]
fn empty_destinations_rejected() {
    let msg = refusal(vec![mirror("ops", "ops", vec![])]);
    assert!(
        msg.contains("destinations") && msg.contains("at least one"),
        "got: {msg}"
    );
}

#[test]
fn multi_destination_without_explicit_names_rejected() {
    let msg = refusal(vec![Mirror {
        flush: flush(),
        ..mirror(
            "ops",
            "ops",
            vec![filesystem(None, "/tmp/a"), filesystem(None, "/tmp/b")],
        )
    }]);
    assert!(msg.contains("explicit `name`"), "got: {msg}");
}

#[test]
fn multi_destination_with_duplicate_explicit_names_rejected() {
    let msg = refusal(vec![Mirror {
        flush: flush(),
        ..mirror(
            "ops",
            "ops",
            vec![
                filesystem(Some("same"), "/tmp/a"),
                filesystem(Some("same"), "/tmp/b"),
            ],
        )
    }]);
    assert!(
        msg.contains("destination name") && msg.contains("more than once"),
        "got: {msg}"
    );
}

#[test]
fn mixed_kafka_and_blob_destinations_parse() {
    let cfg = load(vec![Mirror {
        format: Some(DestinationFormat::Parquet),
        timestamp_mode: Some(TimestampMode::Source),
        flush: flush(),
        ..mirror(
            "orders",
            "orders",
            vec![
                kafka(Some("mirror-broker")),
                filesystem(Some("archive"), "/var/mirror"),
            ],
        )
    }])
    .expect("must be accepted");
    assert_eq!(cfg.mirrors[0].destinations.len(), 2);
    assert_eq!(cfg.mirrors[0].timestamp_mode, Some(TimestampMode::Source));
    assert_eq!(cfg.mirrors[0].format, Some(DestinationFormat::Parquet));
}

#[test]
fn minimal_notify_block_parses_with_all_defaults() {
    let cfg = load(vec![with_notify(notify(&["http://events-cache:8080"]))])
        .expect("must be accepted");
    let notify = cfg.mirrors[0].notify.as_ref().unwrap();
    assert_eq!(notify.targets[0].fan_out, FanOut::Single);
    assert_eq!(notify.trigger.on, TriggerOn::SourceConsume);
    assert_eq!(
        notify.trigger.debounce,
        Some(NotifyDebounce {
            max_records: 100,
            max_time_ms: 250
        })
    );
    assert_eq!(notify.timeout_ms, 5000);
    assert_eq!(
        notify.retry,
        NotifyRetry {
            max_attempts: 5,
            backoff_ms: 100
        }
    );
    let o = notify.outcomes;
    assert_eq!(o.timeout, ok_retry_fail());
    assert_eq!(o.connrefused, ok_retry_fail());
    assert_eq!(o.two_xx, no_retry_accept());
    assert_eq!(o.three_xx, no_retry_fail());
    assert_eq!(o.four_xx, no_retry_fail());
    assert_eq!(o.five_xx, ok_retry_fail());
}

fn ok_retry_fail() -> NotifyOutcome {
    NotifyOutcome {
        retry: true,
        final_: FinalAction::Fail,
    }
}

fn no_retry_fail() -> NotifyOutcome {
    NotifyOutcome {
        retry: false,
        final_: FinalAction::Fail,
    }
}

fn no_retry_accept() -> NotifyOutcome {
    NotifyOutcome {
        retry: false,
        final_: FinalAction::Accept,
    }
}

#[test]
fn explicit_outcomes_override_per_field() {
    let skip = NotifyOutcome {
        retry: false,
        final_: FinalAction::Skip,
    };
    let mut n = notify(&["http://events-cache:8080"]);
    n.outcomes.four_xx = skip;
    let cfg = load(vec![with_notify(n)]).expect("must be accepted");
    let o = cfg.mirrors[0].notify.as_ref().unwrap().outcomes;
    assert_eq!(o.four_xx, skip);
    assert_eq!(o.timeout, ok_retry_fail());
    assert_eq!(o.two_xx, no_retry_accept());
}

fn on_flush() -> NotifyTrigger {
    NotifyTrigger {
        on: TriggerOn::DestinationFlush,
        debounce: None,
    }
}

#[test]
fn destination_flush_trigger_parses_without_debounce() {
    let mut n = notify(&["http://events-cache:8080"]);
    n.trigger = on_flush();
    let cfg = load(vec![with_notify(n)]).expect("must be accepted");
    let trigger = &cfg.mirrors[0].notify.as_ref().unwrap().trigger;
    assert_eq!(trigger.on, TriggerOn::DestinationFlush);
    assert_eq!(trigger.debounce, None);
}

#[test]
fn target_path_and_fanout_parse_when_set() {
    let mut n = notify(&["http://my-headless-service:8080"]);
    n.targets[0].path = Some("/custom/path".into());
    n.targets[0].fan_out = FanOut::DnsA;
    load(vec![with_notify(n)]).expect("must be accepted");
}

#[test]
fn notify_without_http_access_rejected() {
    let msg = refusal(vec![Mirror {
        http_access: None,
        ..with_notify(notify(&["http://events-cache:8080"]))
    }]);
    assert!(
        msg.contains("notify") && msg.contains("http-access"),
        "got: {msg}"
    );
}

#[test]
fn notify_with_empty_targets_rejected() {
    let msg = refusal(vec![with_notify(notify(&[]))]);
    assert!(
        msg.contains("notify.targets") && msg.contains("at least one"),
        "got: {msg}"
    );
}

#[test]
fn notify_target_with_invalid_url_rejected() {
    let msg = refusal(vec![with_notify(notify(&["not a url at all"]))]);
    assert!(
        msg.contains("notify.targets[0].url") && msg.contains("not a valid URL"),
        "got: {msg}"
    );
    assert_eq!(
        msg,
        "invalid config: mirror \"events\": notify.targets[0].url is not a valid URL: relative \
         URL without a base"
    );
}

#[test]
fn notify_target_with_non_http_scheme_rejected() {
    let msg = refusal(vec![with_notify(notify(&[
        "ftp://still-a-url-but-wrong-scheme:21",
    ]))]);
    assert!(
        msg.contains("scheme http or https") && msg.contains("ftp"),
        "got: {msg}"
    );
}

#[test]
fn the_first_bad_target_is_named() {
    let msg = refusal(vec![with_notify(notify(&[
        "https://fine:1",
        "mailto:a@b",
        "not a url at all",
    ]))]);
    assert_eq!(
        msg,
        "invalid config: mirror \"events\": notify.targets[1].url must use scheme http or https, \
         got \"mailto\""
    );
}

#[test]
fn destination_flush_trigger_with_explicit_debounce_rejected() {
    let mut n = notify(&["http://events-cache:8080"]);
    n.trigger = NotifyTrigger {
        on: TriggerOn::DestinationFlush,
        debounce: Some(NotifyDebounce {
            max_records: 100,
            max_time_ms: 250,
        }),
    };
    let msg = refusal(vec![with_notify(n)]);
    assert!(
        msg.contains("debounce") && msg.contains("destination-flush"),
        "got: {msg}"
    );
}

#[test]
fn debounce_zero_max_records_rejected() {
    let mut n = notify(&["http://events-cache:8080"]);
    n.trigger.debounce = Some(NotifyDebounce {
        max_records: 0,
        max_time_ms: 250,
    });
    let msg = refusal(vec![with_notify(n)]);
    assert!(
        msg.contains("debounce.max-records") && msg.contains(">= 1"),
        "got: {msg}"
    );
}

#[test]
fn debounce_needs_a_time_and_is_needed() {
    let mut n = notify(&["http://events-cache:8080"]);
    n.trigger.debounce = Some(NotifyDebounce {
        max_records: 1,
        max_time_ms: 0,
    });
    let msg = refusal(vec![with_notify(n)]);
    assert!(msg.contains("debounce.max-time-ms"), "got: {msg}");
    let mut n = notify(&["http://events-cache:8080"]);
    n.trigger.debounce = None;
    let msg = refusal(vec![with_notify(n)]);
    assert!(msg.contains("debounce` is required"), "got: {msg}");
}

#[test]
fn zero_timeout_ms_rejected() {
    let mut n = notify(&["http://events-cache:8080"]);
    n.timeout_ms = 0;
    let msg = refusal(vec![with_notify(n)]);
    assert!(
        msg.contains("timeout-ms") && msg.contains(">= 1"),
        "got: {msg}"
    );
}

#[test]
fn zero_retry_max_attempts_rejected() {
    let mut n = notify(&["http://events-cache:8080"]);
    n.retry = NotifyRetry {
        max_attempts: 0,
        backoff_ms: 100,
    };
    let msg = refusal(vec![with_notify(n)]);
    assert!(
        msg.contains("retry.max-attempts") && msg.contains(">= 1"),
        "got: {msg}"
    );
}

#[test]
fn zero_retry_backoff_rejected() {
    let mut n = notify(&["http://events-cache:8080"]);
    n.retry.backoff_ms = 0;
    let msg = refusal(vec![with_notify(n)]);
    assert!(msg.contains("retry.backoff-ms"), "got: {msg}");
}

#[test]
fn notify_only_mirror_parses() {
    let mut n = notify(&["http://cache-target:8080"]);
    n.targets[0].fan_out = FanOut::DnsA;
    let cfg = load(vec![notify_only(n)]).expect("must be accepted");
    assert!(cfg.mirrors[0].destinations.is_empty());
    assert!(cfg.mirrors[0].notify.is_some());
}

#[test]
fn destinations_empty_without_notify_still_rejected() {
    let msg = refusal(vec![mirror("empty", "events", vec![])]);
    assert!(
        msg.contains("destinations") && msg.contains("at least one"),
        "got: {msg}"
    );
}

#[test]
fn notify_only_with_destination_flush_trigger_rejected() {
    let mut n = notify(&["http://cache-target:8080"]);
    n.trigger = on_flush();
    let msg = refusal(vec![notify_only(n)]);
    assert!(
        msg.contains("notify-only") && msg.contains("source-consume"),
        "got: {msg}"
    );
}

#[test]
fn notify_only_with_http_access_rejected() {
    let msg = refusal(vec![Mirror {
        http_access: cache_v1(),
        ..notify_only(notify(&["http://cache-target:8080"]))
    }]);
    assert!(
        msg.contains("notify-only") && msg.contains("http-access"),
        "got: {msg}"
    );
}

#[test]
fn notify_only_with_format_rejected() {
    let msg = refusal(vec![Mirror {
        format: Some(DestinationFormat::Parquet),
        ..notify_only(notify(&["http://cache-target:8080"]))
    }]);
    assert!(
        msg.contains("notify-only") && msg.contains("format"),
        "got: {msg}"
    );
}

#[test]
fn notify_only_with_flush_rejected() {
    let msg = refusal(vec![Mirror {
        flush: flush(),
        ..notify_only(notify(&["http://cache-target:8080"]))
    }]);
    assert!(
        msg.contains("notify-only") && msg.contains("flush"),
        "got: {msg}"
    );
}

#[test]
fn notify_only_with_empty_targets_rejected() {
    let msg = refusal(vec![notify_only(notify(&[]))]);
    assert!(
        msg.contains("notify-only") && msg.contains("targets"),
        "got: {msg}"
    );
}

#[test]
fn destination_flush_with_only_kafka_destination_is_rejected_transitively() {
    let mut n = notify(&["http://target:8080"]);
    n.trigger = on_flush();
    let msg = refusal(vec![Mirror {
        notify: Some(n),
        ..mirror("events", "events", vec![kafka(None)])
    }]);
    assert!(
        msg.contains("notify") || msg.contains("http-access"),
        "got: {msg}"
    );
}

#[test]
fn destination_flush_with_filesystem_destination_is_accepted() {
    let mut n = notify(&["http://events-cache:8080"]);
    n.trigger = on_flush();
    let cfg = load(vec![with_notify(n)]).expect("must be accepted");
    assert_eq!(
        cfg.mirrors[0].notify.as_ref().unwrap().trigger.on,
        TriggerOn::DestinationFlush
    );
}

#[test]
fn missing_enabled_defaults_to_true() {
    let m = mirror("ops", "ops", vec![kafka(None)]);
    assert_eq!(m.enabled, None);
    assert!(m.is_enabled());
    let off = Mirror {
        enabled: Some(false),
        ..mirror("ops", "ops", vec![kafka(None)])
    };
    assert!(!off.is_enabled());
}

#[test]
fn other_load_errors_pass_through() {
    let err = accept_config(Err("mapping values are not allowed".into())).unwrap_err();
    assert!(matches!(err, LoadError::Parse(_)));
    assert_eq!(
        err.message(),
        "parsing config: mapping values are not allowed"
    );
    assert_eq!(
        LoadError::Io {
            path: "/etc/mirror.yaml".into(),
            reason: "No such file or directory (os error 2)".into()
        }
        .message(),
        "reading config file \"/etc/mirror.yaml\": No such file or directory (os error 2)"
    );
}

#[test]
fn configurations_are_text() {
    assert_eq!(config_text("c.yaml", b"mirrors: []").unwrap(), "mirrors: []");
    let err = config_text("c.yaml", &[b'm', 0xff]).unwrap_err();
    assert_eq!(
        err.message(),
        "invalid config: config file \"c.yaml\" is not valid UTF-8: invalid utf-8 sequence of 1 \
         bytes from index 1"
    );
}

#[test]
fn an_empty_configuration_is_valid() {
    assert!(validate(&Config { mirrors: vec![] }).is_ok());
    let daily = Mirror {
        flush: Some(FlushTriggers {
            daily: Some(DailyFlush {
                at_utc: "03:00".into(),
            }),
            ..flush().unwrap()
        }),
        ..mirror("ops", "ops", vec![filesystem(None, "/tmp/mirror")])
    };
    assert!(validate(&Config {
        mirrors: vec![daily]
    })
    .is_ok());
}

// ---- the text before it is parsed ----

fn env(pairs: &[(&'static str, &'static str)]) -> OsEnv {
    OsEnv {
        vars: pairs
            .iter()
            .map(|(name, value)| (name.to_string(), value.to_string()))
            .collect(),
    }
}

/// The first mirror of the document that the text expands to.
fn first_mirror(yaml: &str, env: &OsEnv) -> serde_yaml::Value {
    let text = expand_config(yaml, env).expect("must expand");
    let doc: serde_yaml::Value = serde_yaml::from_str(&text).expect("must parse");
    doc["mirrors"][0].clone()
}

#[test]
fn dry_dual_write_via_env_vars() {
    let yaml = r#"
mirrors:
  - name: ${MIRROR_NAME}
    source:
      bootstrap-servers: ${SOURCE_BROKER}
      group-id: ${MIRROR_NAME}-${ENV}
    topic: ${TOPIC}
    partition: 0
    destinations:
      - type: s3
        name: ${TOPIC}-us
        region: us-east-1
        bucket: ${BUCKET_PREFIX}-us-east-1
        endpoint: ${S3_ENDPOINT:-}
        prefix: archive/
      - type: s3
        name: ${TOPIC}-eu
        region: eu-west-1
        bucket: ${BUCKET_PREFIX}-eu-west-1
        endpoint: ${S3_ENDPOINT:-}
        prefix: archive/
"#;
    let e = env(&[
        ("MIRROR_NAME", "orders"),
        ("SOURCE_BROKER", "kafka.prod:9092"),
        ("ENV", "prod"),
        ("TOPIC", "orders"),
        ("BUCKET_PREFIX", "yolean-mirror"),
    ]);
    let m = first_mirror(yaml, &e);
    assert_eq!(m["name"], "orders");
    assert_eq!(m["source"]["bootstrap-servers"], "kafka.prod:9092");
    assert_eq!(m["source"]["group-id"], "orders-prod");
    assert_eq!(m["topic"], "orders");
    assert_eq!(m["destinations"][0]["name"], "orders-us");
    assert_eq!(m["destinations"][0]["region"], "us-east-1");
    assert_eq!(m["destinations"][0]["bucket"], "yolean-mirror-us-east-1");
    assert!(m["destinations"][0]["endpoint"].is_null());
    assert_eq!(m["destinations"][1]["region"], "eu-west-1");
    assert_eq!(m["destinations"][1]["bucket"], "yolean-mirror-eu-west-1");
}

#[test]
fn default_is_used_for_unset_var() {
    let yaml = r#"
mirrors:
  - name: ops
    source: { bootstrap-servers: kafka:9092 }
    topic: ops
    partition: 0
    destinations:
      - type: kafka
        bootstrap-servers: ${DST_BROKER:-localhost:9092}
"#;
    let m = first_mirror(yaml, &env(&[]));
    assert_eq!(
        m["destinations"][0]["bootstrap-servers"],
        "localhost:9092"
    );
}

#[test]
fn double_dollar_escapes_to_literal_in_yaml() {
    let yaml = r#"
mirrors:
  - name: ops
    source: { bootstrap-servers: "kafka:9092" }
    topic: "ops$$1"     # operator wants a literal `$1` in the topic name
    partition: 0
    destinations:
      - type: kafka
        bootstrap-servers: "kafka:9092"
"#;
    assert_eq!(first_mirror(yaml, &env(&[]))["topic"], "ops$1");
}

#[test]
fn plain_config_without_env_refs_round_trips() {
    let yaml = r#"
mirrors:
  - name: ops
    source: { bootstrap-servers: kafka:9092 }
    topic: ops
    partition: 0
    destinations:
      - type: kafka
        bootstrap-servers: redpanda:9092
"#;
    assert_eq!(expand_config(yaml, &env(&[])).unwrap(), yaml);
    assert_eq!(
        first_mirror(yaml, &env(&[]))["source"]["bootstrap-servers"],
        "kafka:9092"
    );
}

fn with_enabled(enabled_line: &str) -> String {
    format!("mirrors:\n  - name: ops\n    {enabled_line}\n")
}

#[test]
fn env_interp_default_true_keeps_mirror_enabled() {
    let yaml = with_enabled("enabled: ${REQUESTS_ENABLED:-true}");
    assert_eq!(first_mirror(&yaml, &env(&[]))["enabled"], true);
}

#[test]
fn env_interp_default_false_disables_mirror() {
    let yaml = with_enabled("enabled: ${REQUESTS_ENABLED:-false}");
    assert_eq!(first_mirror(&yaml, &env(&[]))["enabled"], false);
}

#[test]
fn env_interp_resolves_via_env_var() {
    let yaml = with_enabled("enabled: ${REQUESTS_ENABLED}");
    let on = env(&[("REQUESTS_ENABLED", "true")]);
    assert_eq!(first_mirror(&yaml, &on)["enabled"], true);
    let off = env(&[("REQUESTS_ENABLED", "false")]);
    assert_eq!(first_mirror(&yaml, &off)["enabled"], false);
}
