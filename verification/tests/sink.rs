//! A sink that stores batches, over a directory in memory.
use std::collections::BTreeMap;

use mirror_v3::chain::{listing_fits, read_order, scan_validate_compacted, FsError};
use mirror_v3::column::ColumnType;
use mirror_v3::envelope::{Format, ParquetCompression};
use mirror_v3::error::{MirrorError, SinkError, SourceError};
use mirror_v3::filesystem::{
    decode_file, read_all_records, read_latest_snapshot, CompactionMode, FilesystemSink,
    FilesystemSinkConfig, FlushTriggers,
};
use mirror_v3::record::{FlushTrigger, Record, TimestampType};
use mirror_v3::run_loop::{Action as Step, Event, MirrorLoop};

/// A directory of files.
type Files = BTreeMap<String, Vec<u8>>;

fn names(files: &Files) -> Vec<String> {
    files.keys().cloned().collect()
}

/// A sink together with its directory and a clock.
struct Disk {
    sink: FilesystemSink,
    files: Files,
    /// The time, in unix seconds.
    now: u64,
    /// The ranges that were flushed.
    flushed: Vec<(u64, u64)>,
}

impl Disk {
    fn open(cfg: FilesystemSinkConfig, files: Files, now: u64) -> Result<Disk, FsError> {
        let listing = names(&files);
        assert!(listing_fits(&listing, cfg.format.extension()));
        let mut path = String::new();
        let mut snapshot = vec![];
        if cfg.compaction.is_some() {
            if let (_, Some(latest)) = scan_validate_compacted(&listing, cfg.format.extension())? {
                snapshot = decode_file(&latest, cfg.format, &files[&latest])?;
                path = latest;
            }
        }
        let sink = FilesystemSink::open(cfg, &listing, &path, snapshot, now)?;
        Ok(Disk {
            sink,
            files,
            now,
            flushed: vec![],
        })
    }

    fn tick_daily(&mut self) -> Result<(), SinkError> {
        while self.sink.tick_daily(self.now) {
            self.flush_now()?;
        }
        Ok(())
    }

    fn next_expected_offset(&mut self) -> Result<u64, SinkError> {
        self.tick_daily()?;
        self.sink.next_expected_offset(&names(&self.files))
    }

    fn write(&mut self, record: Record) -> Result<(), SinkError> {
        self.tick_daily()?;
        if self.sink.write(record, self.now * 1000)?.is_some() {
            self.flush_now()?;
        }
        Ok(())
    }

    fn flush_now(&mut self) -> Result<(), SinkError> {
        let Some(plan) = self.sink.flush_now() else {
            return Ok(());
        };
        let bytes = self
            .sink
            .encode_if_writable(&plan)
            .expect("small batches can be written")?;
        self.sink.finish_flush(&plan);
        self.files.insert(plan.name, bytes);
        self.flushed.push((plan.from, plan.to));
        Ok(())
    }

    fn records(&self) -> Vec<Record> {
        let ext = self.sink.format.extension();
        let files = read_order(&names(&self.files), ext)
            .into_iter()
            .map(|f| {
                let bytes = self.files[&f.name].clone();
                (f.name, bytes)
            })
            .collect();
        read_all_records(self.sink.format, &files).unwrap()
    }

    fn snapshot(&self) -> Vec<Record> {
        let (name, bytes) = self.files.iter().last().unwrap();
        read_latest_snapshot(name, self.sink.format, bytes).unwrap()
    }
}

fn offsets(records: &[Record]) -> Vec<u64> {
    records.iter().map(|r| r.source_offset).collect()
}

fn rec(offset: u64) -> Record {
    rec_kv(offset, &format!("k{offset}"), Some(&format!("v{offset}")))
}

fn rec_kv(offset: u64, key: &str, value: Option<&str>) -> Record {
    Record {
        topic: "fs-test".into(),
        partition: 0,
        source_offset: offset,
        timestamp_ms: Some(1_700_000_000_000 + offset as i64),
        timestamp_type: TimestampType::CreateTime,
        key: Some(key.as_bytes().to_vec()),
        value: value.map(|s| s.as_bytes().to_vec()),
        headers: vec![],
    }
}

/// A record whose key is one of four.
fn rec_mod(offset: u64) -> Record {
    rec_kv(
        offset,
        &format!("k{}", offset % 4),
        Some(&format!("v{offset}")),
    )
}

fn cfg(max_offsets: u64) -> FilesystemSinkConfig {
    FilesystemSinkConfig {
        root: "/data".into(),
        destination_name: "ops".into(),
        partition: 0,
        format: Format::Ndjson,
        compression: ParquetCompression::Zstd1,
        keys: ColumnType::Utf8,
        values: ColumnType::Utf8,
        compaction: None,
        flush: FlushTriggers {
            max_time_ms: 3_600_000 * 24 * 365,
            max_bytes: u64::MAX,
            max_offsets,
            daily_at_utc_seconds: None,
        },
    }
}

fn cfg_compacted(max_offsets: u64) -> FilesystemSinkConfig {
    FilesystemSinkConfig {
        format: Format::Parquet,
        compaction: Some(CompactionMode::Log),
        ..cfg(max_offsets)
    }
}

fn cfg_with_daily(target_secs: u32) -> FilesystemSinkConfig {
    let mut c = cfg(1000); // large enough that only the daily flush trips
    c.flush.daily_at_utc_seconds = Some(target_secs);
    c
}

fn fresh(cfg: FilesystemSinkConfig) -> Disk {
    Disk::open(cfg, Files::new(), 1_700_000_000).unwrap()
}

#[test]
fn empty_directory_starts_at_zero() {
    let mut disk = fresh(cfg(100));
    assert_eq!(disk.sink.dir, "/data/ops/0");
    assert_eq!(disk.next_expected_offset().unwrap(), 0);
}

#[test]
fn write_buffers_then_flushes_on_count_trigger() {
    let mut disk = fresh(cfg(3));
    disk.write(rec(0)).unwrap();
    disk.write(rec(1)).unwrap();
    // Not yet flushed; the next offset accounts for what was collected.
    assert_eq!(disk.next_expected_offset().unwrap(), 2);
    assert!(disk.files.is_empty(), "no file should exist yet");

    // The third record trips the count trigger.
    disk.write(rec(2)).unwrap();
    assert_eq!(disk.next_expected_offset().unwrap(), 3);
    let records = disk.records();
    assert_eq!(records.len(), 3);
    assert_eq!(records[0].source_offset, 0);
    assert_eq!(records[2].source_offset, 2);
    assert_eq!(records, vec![rec(0), rec(1), rec(2)]);
}

#[test]
fn rejects_out_of_order_write() {
    let mut disk = fresh(cfg(100));
    disk.write(rec(0)).unwrap();
    let msg = disk.write(rec(5)).expect_err("gap must error").message();
    assert!(
        msg.contains("destination advanced") || msg.contains("expected"),
        "got {msg}"
    );
}

#[test]
fn restart_recomputes_position_from_listing() {
    let mut disk = fresh(cfg(2));
    disk.write(rec(0)).unwrap();
    disk.write(rec(1)).unwrap(); // flushes
    let mut disk = Disk::open(cfg(2), disk.files, disk.now).unwrap();
    assert_eq!(disk.next_expected_offset().unwrap(), 2);
    let msg = disk
        .write(rec(0))
        .expect_err("offset 0 must be rejected after restart")
        .message();
    assert!(
        msg.contains("expected") || msg.contains("destination"),
        "got {msg}"
    );
    disk.write(rec(2)).unwrap();
    disk.write(rec(3)).unwrap(); // flushes 2-3
    assert_eq!(disk.next_expected_offset().unwrap(), 4);
}

#[test]
fn crashed_tmp_file_is_ignored_on_restart() {
    let mut files = Files::new();
    // A writer that crashed left an unfinished file behind.
    files.insert(
        "00000000000000000000-00000000000000000099.ndjson.tmp.abc".into(),
        b"{\"source_offset\":0}\n".to_vec(),
    );
    files.insert(
        "00000000000000000000-00000000000000000000.ndjson".into(),
        b"{\"source_offset\":0,\"key\":null,\"value\":null}\n".to_vec(),
    );
    let mut disk = Disk::open(cfg(100), files, 0).unwrap();
    assert_eq!(disk.next_expected_offset().unwrap(), 1);
}

#[test]
fn corrupt_chain_is_rejected() {
    let mut files = Files::new();
    files.insert(
        "00000000000000000000-00000000000000000004.ndjson".into(),
        vec![],
    );
    files.insert(
        "00000000000000000000-00000000000000000009.ndjson".into(),
        vec![],
    );
    let msg = match Disk::open(cfg(100), files, 0) {
        Err(e) => e.message(),
        Ok(_) => panic!("must reject overlap"),
    };
    assert!(
        msg.contains("gap or overlap") || msg.contains("corrupt"),
        "got {msg}"
    );
}

#[test]
fn foreign_extensions_and_reversed_ranges_are_rejected() {
    let refused = |name: &str| {
        let mut files = Files::new();
        files.insert(name.into(), vec![]);
        match Disk::open(cfg(100), files, 0) {
            Err(e) => e.message(),
            Ok(_) => panic!("must be rejected"),
        }
    };
    assert_eq!(
        refused("00000000000000000000-00000000000000000004.parquet"),
        "destination chain is corrupt: \
         00000000000000000000-00000000000000000004.parquet: extension 'parquet' does not match \
         configured format 'ndjson'"
    );
    assert_eq!(
        refused("00000000000000000005-00000000000000000004.ndjson"),
        "destination chain is corrupt: \
         00000000000000000005-00000000000000000004.ndjson: to < from"
    );
    assert_eq!(
        FsError::Io {
            path: "/data/ops/0".into(),
            reason: "Permission denied (os error 13)".into()
        }
        .message(),
        "filesystem io /data/ops/0: Permission denied (os error 13)"
    );
}

#[test]
fn daily_flush_trips_when_clock_crosses_boundary() {
    // 23:55:00 UTC; the daily flush is at midnight.
    let mut disk = Disk::open(cfg_with_daily(0), Files::new(), 23 * 3600 + 55 * 60).unwrap();
    disk.write(rec(0)).unwrap();
    disk.write(rec(1)).unwrap();
    assert!(disk.files.is_empty(), "no flush before boundary");

    disk.now = 86_400 + 5;
    disk.write(rec(2)).unwrap();
    assert_eq!(
        offsets(&disk.records()),
        vec![0, 1],
        "boundary flush carries records buffered before midnight"
    );
    assert_eq!(
        names(&disk.files),
        vec!["00000000000000000000-00000000000000000001.ndjson"]
    );
}

#[test]
fn daily_flush_with_empty_buffer_skips_silently_and_advances() {
    let mut disk = Disk::open(cfg_with_daily(0), Files::new(), 23 * 3600 + 55 * 60).unwrap();
    disk.now = 86_400 + 5;
    let _ = disk.next_expected_offset().unwrap();
    assert!(disk.files.is_empty(), "empty buffer => no file");
    disk.write(rec(0)).unwrap();
    assert!(disk.files.is_empty(), "no premature flush");
    disk.flush_now().unwrap();
    assert_eq!(disk.records().len(), 1);
}

#[test]
fn daily_flush_skips_correctly_across_a_multi_day_jump() {
    let mut disk = Disk::open(cfg_with_daily(0), Files::new(), 23 * 3600).unwrap();
    disk.write(rec(0)).unwrap();
    disk.now = 3 * 86_400 + 10;
    disk.write(rec(1)).unwrap();
    assert_eq!(offsets(&disk.records()), vec![0]);
    assert_eq!(disk.files.len(), 1);
    assert_eq!(disk.sink.next_daily_unix, Some(4 * 86_400));
}

#[test]
fn no_daily_trigger_means_midnight_crossing_does_not_flush() {
    let mut disk = Disk::open(cfg(1000), Files::new(), 23 * 3600).unwrap();
    disk.write(rec(0)).unwrap();
    disk.now = 2 * 86_400;
    disk.write(rec(1)).unwrap();
    assert!(
        disk.files.is_empty(),
        "with daily disabled, crossing midnight must not trigger a flush"
    );
}

#[test]
fn flush_now_writes_partial_batch() {
    let mut disk = fresh(cfg(1000));
    disk.write(rec(0)).unwrap();
    disk.write(rec(1)).unwrap();
    disk.flush_now().unwrap();
    assert_eq!(offsets(&disk.records()), vec![0, 1]);
}

#[test]
fn bytes_and_time_trip_a_flush_too() {
    let mut c = cfg(1000);
    c.flush.max_bytes = 8;
    let mut disk = fresh(c);
    // Two bytes of key and two of value each.
    assert_eq!(disk.sink.write(rec(0), 0), Ok(None));
    assert_eq!(disk.sink.write(rec(1), 0), Ok(Some(FlushTrigger::MaxBytes)));

    let mut c = cfg(1000);
    c.flush.max_time_ms = 50;
    let mut disk = fresh(c);
    assert_eq!(disk.sink.write(rec(0), 100), Ok(None));
    assert_eq!(disk.sink.should_flush(149), None);
    assert_eq!(disk.sink.should_flush(150), Some(FlushTrigger::MaxTime));
    assert_eq!(FlushTrigger::MaxTime.as_str(), "max-time");
}

fn by_key(records: &[Record]) -> BTreeMap<String, String> {
    records
        .iter()
        .map(|r| {
            (
                String::from_utf8(r.key.clone().unwrap()).unwrap(),
                String::from_utf8(r.value.clone().unwrap()).unwrap(),
            )
        })
        .collect()
}

#[test]
fn compaction_emits_one_row_per_key_with_latest_value() {
    let mut disk = fresh(cfg_compacted(4));
    disk.write(rec_kv(0, "k1", Some("v1a"))).unwrap();
    disk.write(rec_kv(1, "k2", Some("v2a"))).unwrap();
    disk.write(rec_kv(2, "k1", Some("v1b"))).unwrap();
    disk.write(rec_kv(3, "k3", Some("v3"))).unwrap(); // triggers flush

    let snapshot = disk.snapshot();
    assert_eq!(snapshot.len(), 3);
    let by_key = by_key(&snapshot);
    assert_eq!(by_key["k1"], "v1b");
    assert_eq!(by_key["k2"], "v2a");
    assert_eq!(by_key["k3"], "v3");
}

#[test]
fn compaction_tombstone_removes_key_from_snapshot() {
    let mut disk = fresh(cfg_compacted(3));
    disk.write(rec_kv(0, "k1", Some("v1"))).unwrap();
    disk.write(rec_kv(1, "k2", Some("v2"))).unwrap();
    disk.write(rec_kv(2, "k1", None)).unwrap(); // tombstone, triggers flush
    let keys: Vec<String> = by_key(&disk.snapshot()).into_keys().collect();
    assert_eq!(keys, vec!["k2".to_string()]);
}

#[test]
fn compaction_restart_bootstraps_view_from_latest_snapshot() {
    let mut disk = fresh(cfg_compacted(2));
    disk.write(rec_kv(0, "k1", Some("v1"))).unwrap();
    disk.write(rec_kv(1, "k2", Some("v2"))).unwrap(); // flush 0-1
    let mut disk = Disk::open(cfg_compacted(2), disk.files, disk.now).unwrap();
    assert_eq!(disk.next_expected_offset().unwrap(), 2);
    disk.write(rec_kv(2, "k1", None)).unwrap();
    disk.write(rec_kv(3, "k3", Some("v3"))).unwrap(); // flush 2-3
    let by_key = by_key(&disk.snapshot());
    assert_eq!(by_key.get("k1"), None, "k1 should be tombstoned");
    assert_eq!(by_key["k2"], "v2");
    assert_eq!(by_key["k3"], "v3");
}

#[test]
fn compaction_scan_validate_accepts_gap() {
    // An old snapshot was removed; the latest is intact.
    let mut disk = fresh(cfg_compacted(2));
    disk.write(rec_kv(0, "k1", Some("v1"))).unwrap();
    disk.write(rec_kv(1, "k2", Some("v2"))).unwrap(); // 0-1.parquet
    let mut disk = Disk::open(cfg_compacted(2), disk.files, disk.now).unwrap();
    disk.write(rec_kv(2, "k3", Some("v3"))).unwrap();
    disk.write(rec_kv(3, "k4", Some("v4"))).unwrap(); // 2-3.parquet
    let older = names(&disk.files)
        .into_iter()
        .find(|n| n.starts_with("00000000000000000000-"))
        .expect("must find 0..=1 snapshot");
    disk.files.remove(&older);
    let mut disk = Disk::open(cfg_compacted(100), disk.files, disk.now).unwrap();
    assert_eq!(disk.next_expected_offset().unwrap(), 4);
}

#[test]
fn compaction_rejects_null_key_at_write() {
    let mut disk = fresh(cfg_compacted(100));
    let mut r = rec_kv(0, "x", Some("v"));
    r.key = None;
    let msg = disk
        .write(r)
        .expect_err("null key must be rejected")
        .message();
    assert!(msg.contains("null"), "got: {msg}");
}

#[test]
fn compaction_rejects_non_utf8_key_at_write() {
    let mut disk = fresh(cfg_compacted(100));
    let mut r = rec_kv(0, "x", Some("v"));
    r.key = Some(vec![0xff, 0xfe]);
    let msg = disk
        .write(r)
        .expect_err("non-UTF-8 key must be rejected")
        .message();
    assert!(msg.contains("UTF-8"), "got: {msg}");
}

#[test]
fn compaction_idle_flush_now_does_not_emit_file() {
    let mut disk = fresh(cfg_compacted(100));
    disk.flush_now().unwrap();
    assert!(
        disk.files.is_empty(),
        "idle flush in compaction mode must not emit a file"
    );
}

#[test]
fn a_failed_flush_leaves_the_sink_where_it_stood() {
    let mut disk = fresh(cfg(2));
    disk.write(rec(0)).unwrap();
    disk.write(rec(1)).unwrap(); // flush 0-1
    assert!(disk.sink.has_room(&rec(2)));
    disk.sink.write(rec(2), disk.now * 1000).unwrap();
    let plan = disk.sink.flush_now().unwrap();
    assert_eq!((plan.from, plan.to), (2, 2));
    // The batch is never stored: the record is wanted again.
    assert_eq!(disk.next_expected_offset(), Ok(2));
    disk.write(rec(2)).unwrap();
    disk.write(rec(3)).unwrap(); // flush 2-3
    assert_eq!(offsets(&disk.records()), vec![0, 1, 2, 3]);
}

#[test]
fn a_failed_flush_counts_until_the_next_one() {
    let mut c = cfg(1000);
    c.flush.max_bytes = 8;
    c.flush.max_time_ms = 50;
    let mut disk = fresh(c);
    // Two bytes of key and two of value each.
    assert_eq!(disk.sink.write(rec(0), 100), Ok(None));
    assert!(disk.sink.flush_now().is_some());
    // The batch is never stored.
    assert_eq!(disk.sink.buffer_bytes, 4);
    assert_eq!(disk.sink.buffer_started, Some(100));
    assert_eq!(disk.sink.should_flush(1000), None, "there is nothing to store");
    assert_eq!(disk.sink.write(rec(0), 120), Ok(Some(FlushTrigger::MaxBytes)));
    let plan = disk.sink.flush_now().unwrap();
    disk.sink.finish_flush(&plan);
    assert_eq!(disk.sink.buffer_bytes, 0);
    assert_eq!(disk.sink.buffer_started, None);
}

#[test]
fn a_sink_follows_the_source_forward_only() {
    let mut disk = fresh(cfg_compacted(100));
    assert_eq!(disk.sink.align_to_source_low_watermark(7), Ok(()));
    assert_eq!(
        disk.sink.align_to_source_low_watermark(6),
        Err(SinkError::UnexpectedPosition {
            expected: 7,
            actual: 6
        })
    );
    assert_eq!(disk.sink.buffered_head(), 7);
    disk.write(rec(9)).unwrap();
    assert!(matches!(
        disk.sink.align_to_source_low_watermark(6),
        Err(SinkError::Transport(_))
    ));
}

#[test]
fn planned_batches_can_be_read_back() {
    for c in [cfg(100), cfg_compacted(100)] {
        let mut disk = fresh(c);
        disk.write(rec(0)).unwrap();
        disk.write(rec(1)).unwrap();
        let plan = disk.sink.flush_now().unwrap();
        let (bytes, back) = disk.sink.encode_and_read_back(&plan).unwrap().unwrap();
        assert!(!bytes.is_empty());
        assert_eq!(back.unwrap(), vec![rec(0), rec(1)]);
    }
}

#[test]
fn a_foreign_write_to_the_directory_is_noticed() {
    let mut disk = fresh(cfg(1));
    disk.write(rec(0)).unwrap();
    disk.files.insert(
        "00000000000000000001-00000000000000000004.ndjson".into(),
        vec![],
    );
    assert_eq!(
        disk.next_expected_offset(),
        Err(SinkError::UnexpectedPosition {
            expected: 1,
            actual: 5
        })
    );
}

#[test]
fn damaged_files_are_named() {
    let files = vec![
        ("a.ndjson".to_string(), vec![]),
        ("b.ndjson".to_string(), b"{".to_vec()),
    ];
    let msg = read_all_records(Format::Ndjson, &files).unwrap_err().message();
    assert!(
        msg.starts_with("destination chain is corrupt: decode b.ndjson: decode: "),
        "got: {msg}"
    );
}

// ---- flush reports ----

#[test]
fn observer_fires_once_per_max_offsets_flush() {
    let mut disk = fresh(cfg(3));
    for offset in 0..6 {
        disk.write(rec(offset)).unwrap();
    }
    assert_eq!(
        disk.flushed,
        vec![(0, 2), (3, 5)],
        "each max-offsets trip must fire exactly once with the batch's (from, to)"
    );
}

#[test]
fn observer_fires_on_explicit_flush_when_buffer_non_empty() {
    let mut disk = fresh(cfg(1_000));
    disk.write(rec(0)).unwrap();
    disk.write(rec(1)).unwrap();
    disk.flush_now().unwrap();
    assert_eq!(disk.flushed, vec![(0, 1)]);
}

#[test]
fn observer_does_not_fire_on_explicit_flush_when_buffer_empty() {
    let mut disk = fresh(cfg(1_000));
    disk.flush_now().unwrap();
    assert!(disk.flushed.is_empty());
}

#[test]
fn no_observer_does_not_panic() {
    let mut disk = fresh(cfg(2));
    disk.write(rec(0)).unwrap();
    disk.write(rec(1)).unwrap(); // flush
    disk.flush_now().unwrap();
    assert_eq!(disk.files.len(), 1);
}

// ---- the mirror loop over a stored sink ----

/// Run the loop over the given records, then ask it to stop. At the first
/// end the disk is handed back with it.
fn drive_disk(
    compaction: Option<CompactionMode>,
    records: Vec<Record>,
) -> (Result<(), MirrorError>, Disk) {
    let c = match compaction {
        Some(CompactionMode::Log) => cfg_compacted(u64::MAX),
        None => cfg(u64::MAX),
    };
    let mut disk = fresh(c);
    let mut steps = MirrorLoop::start();
    let mut records = records.into_iter();
    let mut held: Option<Record> = None;
    let mut action = Step::AskSink;
    loop {
        let event = match action {
            Step::AskSink => Event::SinkAt(disk.next_expected_offset()),
            Step::AskSource => Event::SourceStartsAt(Ok::<u64, SourceError>(0)),
            Step::AskTolerance => Event::Tolerates(disk.sink.allows_compacted_source()),
            Step::Align(low) => {
                Event::Aligned(disk.sink.align_to_source_low_watermark(low))
            }
            Step::Seek(_) => Event::Sought(Ok(())),
            Step::Select | Step::Heartbeat { .. } => match records.next() {
                Some(r) => {
                    let offset = r.source_offset;
                    held = Some(r);
                    Event::Polled(Ok(Some(offset)))
                }
                None => Event::ShutdownRequested,
            },
            Step::Write { .. } => Event::Written(disk.write(held.take().unwrap())),
            Step::Notify { .. } => Event::Notified(Ok(())),
            Step::Flush => Event::Flushed(disk.flush_now()),
            Step::StopNotifier => Event::NotifierStopped(Ok(())),
            Step::Finish(outcome) => return (outcome, disk),
            Step::OffsetOverflow => panic!("no offset is left"),
        };
        action = steps.step(event);
    }
}

#[test]
fn append_mode_writes_records_in_order_to_real_disk() {
    let (result, disk) = drive_disk(None, vec![rec_mod(0), rec_mod(1), rec_mod(2)]);
    assert!(matches!(result, Ok(())), "got: {result:?}");
    assert_eq!(
        offsets(&disk.records()),
        vec![0, 1, 2],
        "all three records must be stored after graceful shutdown's flush"
    );
}

#[test]
fn append_mode_real_sink_rejects_source_gap() {
    let (result, _) = drive_disk(None, vec![rec_mod(0), rec_mod(5)]);
    match result {
        Err(MirrorError::SourceGapAboveExpected { expected, got }) => {
            assert_eq!((expected, got), (1, 5));
        }
        other => panic!("expected SourceGapAboveExpected, got {other:?}"),
    }
}

#[test]
fn real_sink_rejects_source_going_backwards() {
    let (result, _) = drive_disk(Some(CompactionMode::Log), vec![rec_mod(5), rec_mod(3)]);
    match result {
        Err(MirrorError::SourceWentBackwards { expected, got }) => {
            assert_eq!((expected, got), (6, 3));
        }
        other => panic!("expected SourceWentBackwards, got {other:?}"),
    }
}

#[test]
fn compaction_log_real_sink_accepts_bootstrap_gap_from_compact_only_topic() {
    let (result, disk) = drive_disk(Some(CompactionMode::Log), vec![rec_mod(461)]);
    assert!(matches!(result, Ok(())), "got: {result:?}");
    assert_eq!(offsets(&disk.records()), vec![461]);
}

#[test]
fn compaction_log_real_sink_accepts_repeated_midstream_gaps() {
    let (result, disk) = drive_disk(
        Some(CompactionMode::Log),
        vec![rec_mod(461), rec_mod(466), rec_mod(470)],
    );
    assert!(matches!(result, Ok(())), "got: {result:?}");
    assert_eq!(
        names(&disk.files),
        vec!["00000000000000000000-00000000000000000470.parquet".to_string()],
        "the snapshot file's range must cover all three accepted records"
    );
    let by_key = by_key(&disk.records());
    assert_eq!(by_key.len(), 2, "two distinct keys after compaction");
    assert_eq!(by_key["k1"], "v461");
    assert_eq!(by_key["k2"], "v470", "the latest record of k2 wins");
}

// ---- every mode, buffer state and action ----

/// Compaction mode the cell exercises.
#[derive(Debug, Clone, Copy)]
enum Mode {
    Append,
    Log,
}

impl Mode {
    fn to_compaction(self) -> Option<CompactionMode> {
        match self {
            Mode::Append => None,
            Mode::Log => Some(CompactionMode::Log),
        }
    }
}

/// Buffer state the cell exercises *at the moment of the action*.
/// Set up by the preload phase: `Empty` flushes after the preload,
/// `NonEmpty` leaves the preloaded records in the buffer.
#[derive(Debug, Clone, Copy)]
enum BufferState {
    Empty,
    NonEmpty,
}

/// The action under test.
#[derive(Debug)]
enum Action {
    /// `sink.write(rec(offset))`.
    Write(u64),
    /// Flush, and look at the name of the file.
    Flush {
        expected_from: u64,
        expected_to: u64,
    },
    /// `sink.align_to_source_low_watermark(low_watermark)`.
    Align { low_watermark: u64 },
    /// `sink.next_expected_offset()`.
    NextExpected,
}

#[derive(Debug)]
enum Outcome {
    /// The action succeeded.
    Done,
    /// `next_expected_offset()` returned this value.
    NextExpectedIs(u64),
    /// `SinkError::UnexpectedPosition { expected, actual }`.
    UnexpectedPosition { expected: u64, actual: u64 },
    /// `SinkError::Transport(message)` where the message contains
    /// this substring. Used for the align preconditions, which fail
    /// with descriptive transport errors rather than the structured
    /// `UnexpectedPosition` variant.
    TransportContains(&'static str),
}

struct Case {
    name: &'static str,
    mode: Mode,
    /// Records to write before the action runs. Numeric offsets.
    /// For compaction:log cases the preload offsets may include
    /// gaps; for append mode they must be contiguous starting at 0
    /// (otherwise the preload itself fails).
    preload: &'static [u64],
    /// `Empty` → flush after the preload (so the buffer is empty at
    /// action time); `NonEmpty` → skip the flush.
    buffer_state: BufferState,
    action: Action,
    expected: Outcome,
}

fn run_case(case: &Case) {
    let c = match case.mode.to_compaction() {
        Some(CompactionMode::Log) => cfg_compacted(u64::MAX),
        None => cfg(u64::MAX),
    };
    let mut disk = fresh(c);
    for &offset in case.preload {
        disk.write(rec_mod(offset))
            .unwrap_or_else(|e| panic!("[{}] preload write({offset}) failed: {e:?}", case.name));
    }
    if matches!(case.buffer_state, BufferState::Empty) {
        disk.flush_now()
            .unwrap_or_else(|e| panic!("[{}] preload flush failed: {e:?}", case.name));
    }
    let observed = match &case.action {
        Action::Write(offset) => disk.write(rec_mod(*offset)).map(|()| None),
        Action::Flush {
            expected_from,
            expected_to,
        } => disk.flush_now().map(|()| {
            let ext = if matches!(case.mode, Mode::Log) {
                "parquet"
            } else {
                "ndjson"
            };
            let expected_name = format!("{expected_from:020}-{expected_to:020}.{ext}");
            assert_eq!(
                names(&disk.files).last(),
                Some(&expected_name),
                "[{}] flushed filename",
                case.name
            );
            None
        }),
        Action::Align { low_watermark } => disk
            .sink
            .align_to_source_low_watermark(*low_watermark)
            .map(|()| None),
        Action::NextExpected => disk.next_expected_offset().map(Some),
    };
    match (&case.expected, observed) {
        (Outcome::Done, Ok(_)) => {}
        (Outcome::NextExpectedIs(expected), Ok(Some(value))) => {
            assert_eq!(value, *expected, "[{}] next offset", case.name);
        }
        (
            Outcome::UnexpectedPosition {
                expected: exp,
                actual: act,
            },
            Err(SinkError::UnexpectedPosition { expected, actual }),
        ) => {
            assert_eq!((expected, actual), (*exp, *act), "[{}]", case.name);
        }
        (Outcome::TransportContains(needle), Err(SinkError::Transport(msg))) => {
            assert!(
                msg.contains(needle),
                "[{}] Transport({msg:?}) should contain {needle:?}",
                case.name
            );
        }
        (expected, observed) => {
            panic!(
                "[{}] mismatch: expected={expected:?} observed={observed:?}",
                case.name
            );
        }
    }
}

#[test]
fn matrix() {
    for case in &matrix_cases() {
        run_case(case);
    }
}

fn matrix_cases() -> Vec<Case> {
    vec![
        // ============================================================
        //  APPEND MODE; every gap is fatal, equality is the only OK
        // ============================================================

        // append × empty × write at expected → OK
        Case {
            name: "append/empty/write_at_expected/ok",
            mode: Mode::Append,
            preload: &[],
            buffer_state: BufferState::Empty,
            action: Action::Write(0),
            expected: Outcome::Done,
        },
        // append × empty × write above expected → reject (gap forbidden)
        Case {
            name: "append/empty/write_above_expected/rejects",
            mode: Mode::Append,
            preload: &[],
            buffer_state: BufferState::Empty,
            action: Action::Write(5),
            expected: Outcome::UnexpectedPosition {
                expected: 0,
                actual: 5,
            },
        },
        // append × empty (post-flush, durable=5) × write below durable → reject (backwards)
        Case {
            name: "append/empty_after_flush/write_below_durable/rejects",
            mode: Mode::Append,
            preload: &[0, 1, 2, 3, 4],
            buffer_state: BufferState::Empty, // flush after preload
            action: Action::Write(3),
            expected: Outcome::UnexpectedPosition {
                expected: 5,
                actual: 3,
            },
        },
        // append × non-empty × write at expected → OK
        Case {
            name: "append/non_empty/write_at_expected/ok",
            mode: Mode::Append,
            preload: &[0, 1, 2],
            buffer_state: BufferState::NonEmpty,
            action: Action::Write(3),
            expected: Outcome::Done,
        },
        // append × non-empty × write above expected → reject (gap forbidden)
        Case {
            name: "append/non_empty/write_above_expected/rejects",
            mode: Mode::Append,
            preload: &[0, 1, 2],
            buffer_state: BufferState::NonEmpty,
            action: Action::Write(7),
            expected: Outcome::UnexpectedPosition {
                expected: 3,
                actual: 7,
            },
        },
        // append × non-empty × write below buffered head → reject (backwards)
        Case {
            name: "append/non_empty/write_below_buffered_head/rejects",
            mode: Mode::Append,
            preload: &[0, 1, 2],
            buffer_state: BufferState::NonEmpty,
            action: Action::Write(1),
            expected: Outcome::UnexpectedPosition {
                expected: 3,
                actual: 1,
            },
        },
        // ============================================================
        //  COMPACTION:LOG; forward gaps OK, backwards still fatal
        // ============================================================

        // log × empty × write at expected (offset 0) → OK
        Case {
            name: "log/empty/write_at_expected/ok",
            mode: Mode::Log,
            preload: &[],
            buffer_state: BufferState::Empty,
            action: Action::Write(0),
            expected: Outcome::Done,
        },
        // log × empty × write above expected (bootstrap-time gap from compact-only topic) → OK
        Case {
            name: "log/empty/write_above_expected/ok_bootstrap_gap",
            mode: Mode::Log,
            preload: &[],
            buffer_state: BufferState::Empty,
            action: Action::Write(461),
            expected: Outcome::Done,
        },
        // log × empty (post-flush, durable=5) × write below durable → reject (backwards)
        Case {
            name: "log/empty_after_flush/write_below_durable/rejects",
            mode: Mode::Log,
            preload: &[0, 1, 2, 3, 4],
            buffer_state: BufferState::Empty,
            action: Action::Write(3),
            expected: Outcome::UnexpectedPosition {
                expected: 5,
                actual: 3,
            },
        },
        // log × non-empty × write at expected → OK
        Case {
            name: "log/non_empty/write_at_expected/ok",
            mode: Mode::Log,
            preload: &[0, 1, 2],
            buffer_state: BufferState::NonEmpty,
            action: Action::Write(3),
            expected: Outcome::Done,
        },
        // log × non-empty × write above expected (mid-stream compaction gap) → OK
        Case {
            name: "log/non_empty/write_above_expected/ok_midstream_gap",
            mode: Mode::Log,
            preload: &[0, 1, 2],
            buffer_state: BufferState::NonEmpty,
            action: Action::Write(7),
            expected: Outcome::Done,
        },
        // log × non-empty × write below buffered head → reject (backwards)
        Case {
            name: "log/non_empty/write_below_buffered_head/rejects",
            mode: Mode::Log,
            preload: &[0, 1, 2],
            buffer_state: BufferState::NonEmpty,
            action: Action::Write(1),
            expected: Outcome::UnexpectedPosition {
                expected: 3,
                actual: 1,
            },
        },
        // ============================================================
        //  ALIGN; bootstrap-only, empty-buffer precondition
        // ============================================================

        // log × empty × align(low_watermark=461) → OK
        Case {
            name: "log/empty/align/ok",
            mode: Mode::Log,
            preload: &[],
            buffer_state: BufferState::Empty,
            action: Action::Align { low_watermark: 461 },
            expected: Outcome::Done,
        },
        // log × non-empty × align → reject (empty-buffer precondition)
        Case {
            name: "log/non_empty/align/rejects_with_empty_buffer_precondition",
            mode: Mode::Log,
            preload: &[0, 1, 2],
            buffer_state: BufferState::NonEmpty,
            action: Action::Align { low_watermark: 461 },
            expected: Outcome::TransportContains("inconsistent state"),
        },
        // append × empty × align → reject (compaction-mode precondition)
        Case {
            name: "append/empty/align/rejects_on_non_compaction_sink",
            mode: Mode::Append,
            preload: &[],
            buffer_state: BufferState::Empty,
            action: Action::Align { low_watermark: 461 },
            expected: Outcome::TransportContains("non-compaction sink"),
        },
        // ============================================================
        //  FLUSH; filename encodes the offset range correctly
        // ============================================================

        // append × non-empty × flush → file `<dur>-<dur+len-1>` (contiguous)
        Case {
            name: "append/non_empty/flush/contiguous_filename",
            mode: Mode::Append,
            preload: &[0, 1, 2, 3, 4],
            buffer_state: BufferState::NonEmpty,
            action: Action::Flush {
                expected_from: 0,
                expected_to: 4,
            },
            expected: Outcome::Done,
        },
        // log × non-empty × flush after gap-spanning writes → file `<dur>-<max(offsets)>`
        // The buffer carries offsets 0, 461, 466; the snapshot file
        // must name `0-466.parquet` (not `0-2` from len-1).
        Case {
            name: "log/non_empty_with_gaps/flush/uses_max_offset_for_to",
            mode: Mode::Log,
            preload: &[0, 461, 466],
            buffer_state: BufferState::NonEmpty,
            action: Action::Flush {
                expected_from: 0,
                expected_to: 466,
            },
            expected: Outcome::Done,
        },
        // ============================================================
        //  NEXT_EXPECTED_OFFSET; reflects buffered_head() correctly
        // ============================================================

        // append × non-empty × next_expected → durable + buffer.len()
        Case {
            name: "append/non_empty/next_expected/durable_plus_len",
            mode: Mode::Append,
            preload: &[0, 1, 2],
            buffer_state: BufferState::NonEmpty,
            action: Action::NextExpected,
            expected: Outcome::NextExpectedIs(3),
        },
        // log × non-empty with gaps × next_expected → last_buffered + 1
        Case {
            name: "log/non_empty_with_gaps/next_expected/last_buffered_plus_one",
            mode: Mode::Log,
            preload: &[0, 461, 466],
            buffer_state: BufferState::NonEmpty,
            action: Action::NextExpected,
            expected: Outcome::NextExpectedIs(467),
        },
    ]
}
