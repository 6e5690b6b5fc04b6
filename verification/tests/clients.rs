//! What a process makes of its configuration and of its brokers' answers.
use mirror_v3::cache::{CacheState, MirrorStatus};
use mirror_v3::column::ColumnType;
use mirror_v3::config;
use mirror_v3::config::{
    AtUtcError, Compaction, Config, DailyFlush, Destination, FilesystemDestination, FlushTriggers,
    KafkaDestination, KafkaSource, Mirror, Notify, NotifyApi, NotifyOutcomes, NotifyRetry,
    NotifyTarget, NotifyTrigger, S3Destination,
};
use mirror_v3::envelope::{Format, ParquetCompression};
use mirror_v3::error::SinkError;
use mirror_v3::filesystem::CompactionMode;
use mirror_v3::kafka::{
    apply_poll, check_delivery, check_position, committed_offset, message_record, watermark,
    KafkaError, KafkaSinkConfig, Message, MessageTime, StagedOffset, TimestampMode,
};
use mirror_v3::record::{current_labels, Header, MetricLabels, TimestampType};
use mirror_v3::supervisor::{
    any_errors, blob_sink_config, check_any_enabled, compaction_label, destination_type,
    endpoint_is_plain_http, group_id, kafka_sink_config, needs_slot, notify_label,
    plan_notifier, plan_sinks, port_from_env, resolve_blob_params, resume_floor, row_name,
    source_config, status_row, status_table, validate_report, AckSource, NotifierPlan, ParamsError,
    SourceAnswer, StatusRow,
};

fn mirror(name: &str, destinations: Vec<Destination>) -> Mirror {
    Mirror {
        name: name.into(),
        source: KafkaSource {
            bootstrap_servers: "kafka:9092".into(),
            group_id: None,
        },
        topic: "orders".into(),
        partition: 3,
        destinations,
        format: None,
        compression: None,
        keys: None,
        values: None,
        compaction: None,
        flush: None,
        timestamp_mode: None,
        http_access: None,
        enabled: None,
        notify: None,
    }
}

fn kafka(name: Option<&str>, topic: Option<&str>) -> KafkaDestination {
    KafkaDestination {
        name: name.map(String::from),
        bootstrap_servers: "backup:9092".into(),
        topic: topic.map(String::from),
    }
}

fn directory(name: Option<&str>) -> Destination {
    Destination::Filesystem(FilesystemDestination {
        name: name.map(String::from),
        root: "/data".into(),
    })
}

fn bucket(name: Option<&str>) -> Destination {
    Destination::S3(S3Destination {
        name: name.map(String::from),
        endpoint: None,
        region: "r".into(),
        bucket: "b".into(),
        prefix: None,
    })
}

fn flush(at_utc: Option<&str>) -> Option<FlushTriggers> {
    Some(FlushTriggers {
        max_time_ms: 1,
        max_bytes: 2,
        max_offsets: 3,
        daily: at_utc.map(|s| DailyFlush { at_utc: s.into() }),
    })
}

#[test]
fn sources_read_one_partition_in_their_own_group() {
    let m = mirror("ops", vec![]);
    let c = source_config(&m);
    assert_eq!(c.bootstrap_servers, "kafka:9092");
    assert_eq!(c.group_id, "mirror-v3-ops");
    assert_eq!(c.topic, "orders");
    assert_eq!(c.partition, 3);
    assert_eq!(c.poll_timeout_ms, 2000);
    let named = Mirror {
        source: KafkaSource {
            bootstrap_servers: "kafka:9092".into(),
            group_id: Some("g".into()),
        },
        ..mirror("ops", vec![])
    };
    assert_eq!(group_id(&named), "g");
}

#[test]
fn kafka_sinks_take_the_mirrors_settings() {
    let m = Mirror {
        timestamp_mode: Some(config::TimestampMode::Destination),
        keys: Some(config::ColumnConfig {
            kind: config::ColumnType::Bytes,
        }),
        ..mirror("ops", vec![])
    };
    let c = kafka_sink_config(&m, &kafka(None, None));
    assert_eq!(c.bootstrap_servers, "backup:9092");
    assert_eq!(c.topic, "orders");
    assert_eq!(c.timestamp_mode, TimestampMode::Destination);
    assert_eq!(c.keys, ColumnType::Bytes);
    assert_eq!(c.values, ColumnType::Utf8);
    assert_eq!(c.watermark_timeout_ms, 10_000);
    let c = kafka_sink_config(&mirror("ops", vec![]), &kafka(None, Some("copy")));
    assert_eq!(c.topic, "copy");
    assert_eq!(c.timestamp_mode, TimestampMode::Source);
}

#[test]
fn stored_files_have_defaults() {
    let m = Mirror {
        flush: flush(Some("01:02:03")),
        compaction: Some(Compaction::Log),
        values: Some(config::ColumnConfig {
            kind: config::ColumnType::JsonParseable,
        }),
        ..mirror("ops", vec![directory(None)])
    };
    let c = blob_sink_config(&m, "/data", "ops").unwrap();
    assert_eq!(c.root, "/data");
    assert_eq!(c.destination_name, "ops");
    assert_eq!(c.partition, 3);
    assert_eq!(c.format, Format::Parquet);
    assert_eq!(c.compression, ParquetCompression::Zstd1);
    assert_eq!(c.keys, ColumnType::Utf8);
    assert_eq!(c.values, ColumnType::JsonParseable);
    assert_eq!(c.compaction, Some(CompactionMode::Log));
    assert_eq!(c.flush.max_time_ms, 1);
    assert_eq!(c.flush.max_bytes, 2);
    assert_eq!(c.flush.max_offsets, 3);
    assert_eq!(c.flush.daily_at_utc_seconds, Some(3723));
    let explicit = Mirror {
        flush: flush(None),
        format: Some(config::DestinationFormat::Ndjson),
        compression: Some(config::ParquetCompression::Lz4),
        ..mirror("ops", vec![directory(None)])
    };
    let p = resolve_blob_params(&explicit).unwrap();
    assert_eq!(p.format, Format::Ndjson);
    assert_eq!(p.compression, ParquetCompression::Lz4);
    assert_eq!(p.flush.daily_at_utc_seconds, None);
}

#[test]
fn stored_files_need_usable_flush_settings() {
    let err = resolve_blob_params(&mirror("o\"ps", vec![directory(None)])).unwrap_err();
    assert_eq!(err.message(), "mirror \"o\\\"ps\": missing `flush`");
    let m = Mirror {
        flush: flush(Some("25:00")),
        ..mirror("ops", vec![directory(None)])
    };
    let err = resolve_blob_params(&m).unwrap_err();
    assert_eq!(err.message(), "mirror \"ops\": daily.at-utc");
    match err {
        ParamsError::Daily { cause, .. } => assert!(matches!(cause, AtUtcError::Range(_))),
        other => panic!("got {other:?}"),
    }
}

#[test]
fn sinks_are_planned_per_destination() {
    let m = mirror(
        "ops",
        vec![
            Destination::Kafka(kafka(Some("copy"), None)),
            directory(None),
            bucket(Some("far")),
        ],
    );
    let plans: Vec<(String, String, AckSource)> = plan_sinks(&m)
        .into_iter()
        .map(|p| (p.name, p.description, p.acks))
        .collect();
    assert_eq!(
        plans,
        vec![
            (
                "copy".to_string(),
                "copy(kafka)".to_string(),
                AckSource::Writes
            ),
            (
                "ops".to_string(),
                "ops(filesystem)".to_string(),
                AckSource::Flushes
            ),
            ("far".to_string(), "far(s3)".to_string(), AckSource::Flushes),
        ]
    );
    let none = plan_sinks(&mirror("ops", vec![]));
    assert_eq!(none.len(), 1);
    assert_eq!(none[0].name, "notify-only");
    assert_eq!(none[0].acks, AckSource::Nothing);
}

fn notify(urls: &[&str]) -> Notify {
    Notify {
        api: NotifyApi::KkvV1,
        targets: urls
            .iter()
            .map(|url| NotifyTarget {
                url: url.to_string(),
                path: None,
                fan_out: Default::default(),
            })
            .collect(),
        trigger: NotifyTrigger::default(),
        timeout_ms: 1,
        retry: NotifyRetry::default(),
        outcomes: NotifyOutcomes::default(),
    }
}

#[test]
fn labels_for_logs() {
    assert_eq!(compaction_label(None), "append");
    assert_eq!(compaction_label(Some(Compaction::Log)), "log");
    assert_eq!(destination_type(&bucket(None)), "s3");
    assert!(endpoint_is_plain_http("http://versitygw:7070"));
    assert!(!endpoint_is_plain_http("https://s3"));
    assert!(!endpoint_is_plain_http("http:/"));
    assert_eq!(notify_label(&mirror("ops", vec![])), "");
    let m = Mirror {
        notify: Some(notify(&["http://a", "http://b"])),
        ..mirror("ops", vec![])
    };
    assert_eq!(
        notify_label(&m),
        " notify=kkv-v1[http://a,http://b] trigger=source-consume"
    );
    assert!(needs_slot(&m));
    assert!(!needs_slot(&mirror("ops", vec![])));
    let labels = MetricLabels {
        topic: "orders".into(),
        partition: 3,
    };
    assert_eq!(
        current_labels(Some(&labels)),
        ("orders".to_string(), "3".to_string())
    );
    assert_eq!(current_labels(None), ("unknown".to_string(), "0".to_string()));
}

#[test]
fn targets_are_told_on_consume_or_on_flush() {
    let silent = mirror("ops", vec![]);
    assert_eq!(plan_notifier(&silent, false), Ok(NotifierPlan::Silent));
    assert_eq!(resume_floor(&silent, Some(4)), None);
    let mut m = Mirror {
        notify: Some(notify(&["http://a"])),
        ..mirror("ops", vec![])
    };
    assert_eq!(plan_notifier(&m, true), Ok(NotifierPlan::OnConsume));
    assert_eq!(
        plan_notifier(&m, false),
        Err(
            "mirror ops has notify but no cache binding; validator should reject this".to_string()
        )
    );
    assert_eq!(resume_floor(&m, Some(4)), Some(4));
    assert_eq!(resume_floor(&m, None), None);
    m.notify.as_mut().unwrap().trigger = NotifyTrigger {
        on: config::TriggerOn::DestinationFlush,
        debounce: None,
    };
    assert_eq!(plan_notifier(&m, true), Ok(NotifierPlan::OnFlush));
}

#[test]
fn the_mirror_that_opts_in_is_the_main_one() {
    let readable = |api: config::HttpAccessApi| Mirror {
        http_access: Some(config::HttpAccess { api }),
        ..mirror("ops", vec![directory(None)])
    };
    assert!(!mirror("ops", vec![]).is_main());
    assert!(!readable(config::HttpAccessApi::CacheV1).is_main());
    assert!(readable(config::HttpAccessApi::CacheV1Main).is_main());
}

#[test]
fn ports_come_from_settings() {
    assert_eq!(port_from_env(None, 8080), 8080);
    assert_eq!(port_from_env(Some("0"), 9090), 0);
    assert_eq!(port_from_env(Some("65535"), 9090), 65535);
    assert_eq!(port_from_env(Some("65536"), 9090), 9090);
}

#[test]
fn the_status_of_destinations_is_a_table() {
    let rows = vec![
        status_row("ops".into(), SourceAnswer::High(10), Ok(7)),
        status_row("ops.archive".into(), SourceAnswer::High(10), Err("denied".into())),
        status_row("states".into(), SourceAnswer::Failed("no broker".into()), Ok(0)),
        status_row("tasks".into(), SourceAnswer::TaskFailed("cancelled".into()), Ok(0)),
        status_row("b".into(), SourceAnswer::High(3), Ok(5)),
    ];
    assert_eq!(rows[0].lag(), Some(3));
    assert_eq!(rows[1].lag(), None);
    assert_eq!(rows[4].lag(), Some(0), "a destination ahead does not lag");
    assert!(any_errors(&rows));
    assert_eq!(
        status_table(&rows),
        "MIRROR          SOURCE-HIGH       DEST-NEXT         LAG\n\
         ops                      10               7           3\n\
         ops.archive  error: destination: denied\n\
         states       error: source watermark: no broker\n\
         tasks        error: source watermark task: cancelled\n\
         b                         3               5           0\n"
    );
    let fine: Vec<StatusRow> = vec![];
    assert!(!any_errors(&fine));
}

#[test]
fn rows_are_named_after_mirror_and_destination() {
    let m = mirror("ops", vec![directory(None), bucket(Some("far"))]);
    assert_eq!(row_name(&m, &m.destinations[0]), "ops");
    assert_eq!(row_name(&m, &m.destinations[1]), "ops.far");
}

#[test]
fn configurations_are_reported() {
    let on = mirror(
        "ops",
        vec![directory(Some("a")), Destination::Kafka(kafka(None, None))],
    );
    let cfg = Config {
        mirrors: vec![on],
    };
    assert_eq!(
        validate_report(&cfg),
        "OK: 1 mirror(s), 2 destination(s) total\n  \
         mirror \"ops\": destinations = [filesystem, kafka]\n"
    );
    let off = Mirror {
        enabled: Some(false),
        ..mirror("old", vec![bucket(None)])
    };
    let cfg = Config {
        mirrors: vec![mirror("ops", vec![directory(None)]), off],
    };
    assert_eq!(
        validate_report(&cfg),
        "OK: 2 mirror(s) (1 enabled, 1 disabled), 2 destination(s) total\n  \
         mirror \"ops\": destinations = [filesystem]\n  \
         mirror \"old\" [DISABLED]: destinations = [s3]\n"
    );
    assert_eq!(check_any_enabled(&cfg), Ok(()));
    let none = Config {
        mirrors: vec![Mirror {
            enabled: Some(false),
            ..mirror("old", vec![])
        }],
    };
    assert_eq!(
        check_any_enabled(&none),
        Err(
            "all 1 mirror(s) are disabled (enabled: false); nothing to do - enable at least one \
             mirror or scale this deployment to zero replicas"
                .to_string()
        )
    );
}

// ---- brokers ----

#[test]
fn messages_become_records() {
    let m = Message {
        topic: "orders".into(),
        partition: 3,
        offset: 41,
        time: MessageTime::LogAppendTime(99),
        key: None,
        payload: Some(b"v".to_vec()),
        headers: vec![Header {
            key: "h".into(),
            value: None,
        }],
    };
    let r = message_record(m);
    assert_eq!(r.source_offset, 41);
    assert_eq!(r.timestamp_ms, Some(99));
    assert_eq!(r.timestamp_type, TimestampType::LogAppendTime);
    assert_eq!(r.value, Some(b"v".to_vec()));
    assert_eq!(r.headers.len(), 1);
}

#[test]
fn produced_records_keep_their_offset() {
    assert_eq!(check_position(5, 5), Ok(()));
    assert_eq!(
        check_position(5, 6),
        Err(SinkError::UnexpectedPosition {
            expected: 5,
            actual: 6
        })
    );
    assert_eq!(check_position(0, -1), Ok(()));
    assert_eq!(check_delivery(5, 5), Ok(()));
    assert_eq!(
        check_delivery(5, 7),
        Err(SinkError::Transport(
            "produced offset 7 != source offset 5".to_string()
        ))
    );
    assert_eq!(watermark(-1), 0);
    assert_eq!(committed_offset(Some(-1001)), None);
    assert_eq!(committed_offset(Some(4)), Some(4));
    assert_eq!(committed_offset(None), None);
    assert_eq!(
        KafkaError::Init("no host".into()).message(),
        "kafka client init: no host"
    );
}

#[test]
fn offsets_are_staged_once() {
    let mut staged = StagedOffset::new();
    assert!(!staged.stage(0));
    assert!(staged.stage(4));
    staged.staged(4, false);
    assert!(staged.stage(4), "a failed staging is tried again");
    staged.staged(4, true);
    assert!(!staged.stage(4));
    assert!(!staged.stage(3));
    assert!(staged.stage(5));
}

#[test]
fn records_are_checked_before_they_are_produced() {
    let mut c = KafkaSinkConfig::new("b:1".into(), "t".into(), 0);
    let mut r = mirror_v3::mock::rec(7);
    assert_eq!(c.check_record(&r), Ok(()));
    assert_eq!(c.produced_timestamp(&r), r.timestamp_ms);
    c.timestamp_mode = TimestampMode::Destination;
    assert_eq!(c.produced_timestamp(&r), None);
    r.value = Some(vec![0xff]);
    match c.check_record(&r) {
        Err(SinkError::Transport(m)) => {
            assert!(m.starts_with("value at source offset 7 is not valid UTF-8"))
        }
        other => panic!("got {other:?}"),
    }
    c.values = ColumnType::Bytes;
    assert_eq!(c.check_record(&r), Ok(()));
}

#[test]
fn looks_at_the_source_reach_the_cache() {
    let mut cache = CacheState::new();
    cache.register_mirror_with_topic("m", 0, None, false, "t", 0);
    apply_poll(&mut cache, "m", Some(4), None);
    assert_eq!(
        cache.status_for("m"),
        Some(MirrorStatus::LagBehindSource { lag: 4 })
    );
    apply_poll(&mut cache, "m", None, Some(false));
    assert!(matches!(
        cache.status_for("m"),
        Some(MirrorStatus::SourceUnassigned { .. })
    ));
    apply_poll(&mut cache, "m", Some(-1), Some(true));
    assert_eq!(
        cache.status_for("m"),
        Some(MirrorStatus::LagBehindSource { lag: 4 })
    );
}
