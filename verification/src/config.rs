//! The configuration of a mirroring process.
//!
//! Each mirror names one source partition and the destinations that it
//! fans into. Encoding settings apply to every destination that stores
//! files or objects; Kafka destinations take records as they are.
use vstd::prelude::*;
use vstd::string::*;

use crate::envsubst::{find_char, sub_chars, EnvSubstError};
use crate::text::{chars_of, debug_quoted, debug_text, parse_digits, parse_unsigned};

verus! {

/// The configuration of one process.
#[derive(Debug, PartialEq)]
pub struct Config {
    /// One mirror per source partition.
    pub mirrors: Vec<Mirror>,
}

/// Where a mirror puts its records.
#[derive(Debug, PartialEq)]
pub enum Destination {
    Kafka(KafkaDestination),
    Filesystem(FilesystemDestination),
    S3(S3Destination),
}

/// A topic on another cluster.
#[derive(Debug, PartialEq)]
pub struct KafkaDestination {
    /// What the destination is called; the mirror's name where unset.
    pub name: Option<String>,
    pub bootstrap_servers: String,
    /// The topic; the source's name where unset.
    pub topic: Option<String>,
}

/// A directory tree.
#[derive(Debug, PartialEq)]
pub struct FilesystemDestination {
    /// What the destination is called, and its directory under `root`.
    pub name: Option<String>,
    /// The root directory, as an absolute path.
    pub root: String,
}

/// A bucket of an S3 service.
#[derive(Debug, PartialEq)]
pub struct S3Destination {
    /// What the destination is called, and its part of the object keys.
    pub name: Option<String>,
    /// The service's URL, where it is not AWS itself.
    pub endpoint: Option<String>,
    pub region: String,
    pub bucket: String,
    /// What every object key starts with.
    pub prefix: Option<String>,
}

/// The name that the destination was given, if any.
pub open spec fn given_name(d: Destination) -> Option<Seq<char>> {
    let name = match d {
        Destination::Kafka(k) => k.name,
        Destination::Filesystem(f) => f.name,
        Destination::S3(s) => s.name,
    };
    match name {
        Some(n) => Some(n@),
        None => None,
    }
}

/// What the destination is called within a mirror.
pub open spec fn called(d: Destination, mirror_name: Seq<char>) -> Seq<char> {
    given_name(d).unwrap_or(mirror_name)
}

fn name_or(name: &Option<String>, default: &str) -> (r: String)
    ensures
        r@ == match *name {
            Some(n) => n@,
            None => default@,
        },
{
    match name {
        Some(n) => n.clone(),
        None => default.to_owned(),
    }
}

impl Destination {
    /// What the destination is called: its own name, else the mirror's.
    pub fn effective_name(&self, mirror_name: &str) -> (r: String)
        ensures
            r@ == called(*self, mirror_name@),
    {
        match self {
            Destination::Kafka(k) => name_or(&k.name, mirror_name),
            Destination::Filesystem(f) => name_or(&f.name, mirror_name),
            Destination::S3(s) => name_or(&s.name, mirror_name),
        }
    }

    /// Whether the destination collects records before it stores them.
    pub fn is_blob(&self) -> (r: bool)
        ensures
            r == !(*self is Kafka),
    {
        !matches!(self, Destination::Kafka(_))
    }
}

/// One mirror: a source partition and where it goes.
#[derive(Debug, PartialEq)]
pub struct Mirror {
    /// What the mirror is called; unique in the process.
    pub name: String,
    pub source: KafkaSource,
    pub topic: String,
    pub partition: u32,
    /// Where the records go. May be empty only with `notify`.
    pub destinations: Vec<Destination>,
    /// The format of stored files; Parquet where unset.
    pub format: Option<DestinationFormat>,
    /// How Parquet files are compressed.
    pub compression: Option<ParquetCompression>,
    /// What record keys are.
    pub keys: Option<ColumnConfig>,
    /// What record values are.
    pub values: Option<ColumnConfig>,
    /// Whether stored files are snapshots of the latest values.
    pub compaction: Option<Compaction>,
    /// When collected records are stored.
    pub flush: Option<FlushTriggers>,
    /// Which timestamp a Kafka destination's records get.
    pub timestamp_mode: Option<TimestampMode>,
    /// Whether the latest values can be read over HTTP.
    pub http_access: Option<HttpAccess>,
    /// Whether the mirror is run at all; yes where unset.
    pub enabled: Option<bool>,
    /// Who is told of records.
    pub notify: Option<Notify>,
}

impl Mirror {
    /// Whether the mirror is run.
    pub fn is_enabled(&self) -> (r: bool)
        ensures
            r == self.enabled.unwrap_or(true),
    {
        self.enabled.unwrap_or(true)
    }

    /// Whether the mirror is the one that is read where a request names
    /// none.
    pub open spec fn opts_into_main(self) -> bool {
        self.http_access matches Some(h) && h.api == HttpAccessApi::CacheV1Main
    }

    /// Whether the mirror is the one that is read where a request names
    /// none.
    pub fn is_main(&self) -> (r: bool)
        ensures
            r == self.opts_into_main(),
    {
        match &self.http_access {
            Some(h) => matches!(h.api, HttpAccessApi::CacheV1Main),
            None => false,
        }
    }
}

/// Who is told of records, and how.
#[derive(Debug, PartialEq)]
pub struct Notify {
    pub api: NotifyApi,
    pub targets: Vec<NotifyTarget>,
    pub trigger: NotifyTrigger,
    /// How long one request may take, in milliseconds.
    pub timeout_ms: u64,
    pub retry: NotifyRetry,
    pub outcomes: NotifyOutcomes,
}

/// The form of notifications.
#[derive(Debug, Clone, Copy, PartialEq, Eq, Structural)]
pub enum NotifyApi {
    KkvV1,
}

/// One receiver of notifications.
#[derive(Debug, PartialEq)]
pub struct NotifyTarget {
    pub url: String,
    /// The path to post to, where it is not the one of the form.
    pub path: Option<String>,
    pub fan_out: FanOut,
}

/// Which addresses of a receiver are told.
#[derive(Debug, Clone, Copy, PartialEq, Eq, Structural)]
pub enum FanOut {
    /// One of them.
    Single,
    /// All that the host name resolves to.
    DnsA,
}

impl Default for FanOut {
    fn default() -> (r: Self)
        ensures
            r == FanOut::Single,
    {
        FanOut::Single
    }
}

/// When notifications are sent.
#[derive(Debug, Clone, Copy, PartialEq, Eq, Structural)]
pub struct NotifyTrigger {
    pub on: TriggerOn,
    /// How records are collected before they are sent.
    pub debounce: Option<NotifyDebounce>,
}

impl Default for NotifyTrigger {
    fn default() -> (r: Self)
        ensures
            r == (NotifyTrigger {
                on: TriggerOn::SourceConsume,
                debounce: Some(NotifyDebounce { max_records: 100, max_time_ms: 250 }),
            }),
    {
        NotifyTrigger { on: TriggerOn::default(), debounce: Some(NotifyDebounce::default()) }
    }
}

/// What a notification waits for.
#[derive(Debug, Clone, Copy, PartialEq, Eq, Structural)]
pub enum TriggerOn {
    /// The record, within the debounce window.
    SourceConsume,
    /// The flush of every destination.
    DestinationFlush,
}

impl Default for TriggerOn {
    fn default() -> (r: Self)
        ensures
            r == TriggerOn::SourceConsume,
    {
        TriggerOn::SourceConsume
    }
}

/// How many records, and for how long, are collected.
#[derive(Debug, Clone, Copy, PartialEq, Eq, Structural)]
pub struct NotifyDebounce {
    pub max_records: u64,
    pub max_time_ms: u64,
}

impl Default for NotifyDebounce {
    fn default() -> (r: Self)
        ensures
            r == (NotifyDebounce { max_records: 100, max_time_ms: 250 }),
    {
        NotifyDebounce { max_records: 100, max_time_ms: 250 }
    }
}

/// How often a failed notification is tried again.
#[derive(Debug, Clone, Copy, PartialEq, Eq, Structural)]
pub struct NotifyRetry {
    pub max_attempts: u32,
    pub backoff_ms: u64,
}

impl Default for NotifyRetry {
    fn default() -> (r: Self)
        ensures
            r == (NotifyRetry { max_attempts: 5, backoff_ms: 100 }),
    {
        NotifyRetry { max_attempts: 5, backoff_ms: 100 }
    }
}

/// How long one request may take where nothing else is set.
pub const DEFAULT_NOTIFY_TIMEOUT_MS: u64 = 5000;

/// What each outcome of a request means for the mirror.
#[derive(Debug, Clone, Copy, PartialEq, Eq, Structural)]
pub struct NotifyOutcomes {
    pub timeout: NotifyOutcome,
    pub connrefused: NotifyOutcome,
    pub two_xx: NotifyOutcome,
    pub three_xx: NotifyOutcome,
    pub four_xx: NotifyOutcome,
    pub five_xx: NotifyOutcome,
}

impl Default for NotifyOutcomes {
    fn default() -> (r: Self)
        ensures
            r == (NotifyOutcomes {
                timeout: NotifyOutcome { retry: true, final_: FinalAction::Fail },
                connrefused: NotifyOutcome { retry: true, final_: FinalAction::Fail },
                two_xx: NotifyOutcome { retry: false, final_: FinalAction::Accept },
                three_xx: NotifyOutcome { retry: false, final_: FinalAction::Fail },
                four_xx: NotifyOutcome { retry: false, final_: FinalAction::Fail },
                five_xx: NotifyOutcome { retry: true, final_: FinalAction::Fail },
            }),
    {
        let retry_then_fail = NotifyOutcome { retry: true, final_: FinalAction::Fail };
        let fail_at_once = NotifyOutcome { retry: false, final_: FinalAction::Fail };
        NotifyOutcomes {
            timeout: retry_then_fail,
            connrefused: retry_then_fail,
            two_xx: NotifyOutcome { retry: false, final_: FinalAction::Accept },
            three_xx: fail_at_once,
            four_xx: fail_at_once,
            five_xx: retry_then_fail,
        }
    }
}

/// What one outcome of a request means.
#[derive(Debug, Clone, Copy, PartialEq, Eq, Structural)]
pub struct NotifyOutcome {
    /// Whether the request is tried again first.
    pub retry: bool,
    /// What happens after the last attempt.
    pub final_: FinalAction,
}

/// What happens to a notification after the last attempt.
#[derive(Debug, Clone, Copy, PartialEq, Eq, Structural)]
pub enum FinalAction {
    /// It counts as delivered.
    Accept,
    /// It is dropped with a warning.
    Skip,
    /// The mirror fails.
    Fail,
}

/// How the latest values can be read over HTTP.
#[derive(Debug, Clone, Copy, PartialEq, Eq, Structural)]
pub struct HttpAccess {
    pub api: HttpAccessApi,
}

/// The HTTP interfaces for reading values.
#[derive(Debug, Clone, Copy, PartialEq, Eq, Structural)]
pub enum HttpAccessApi {
    /// Under paths that name the mirror.
    CacheV1,
    /// Under these paths, and under the same ones without the name. At
    /// most one mirror of a configuration has it.
    CacheV1Main,
}

/// The cluster that a mirror reads from.
#[derive(Debug, PartialEq)]
pub struct KafkaSource {
    pub bootstrap_servers: String,
    /// The consumer group, where it is not derived from the mirror.
    pub group_id: Option<String>,
}

/// What a record column is.
#[derive(Debug, Clone, Copy, PartialEq, Eq, Structural)]
pub struct ColumnConfig {
    pub kind: ColumnType,
}

impl Default for ColumnConfig {
    fn default() -> (r: Self)
        ensures
            r == (ColumnConfig { kind: ColumnType::Utf8 }),
    {
        ColumnConfig { kind: ColumnType::default() }
    }
}

/// What a record column holds.
#[derive(Debug, Clone, Copy, PartialEq, Eq, Structural)]
pub enum ColumnType {
    /// Any bytes.
    Bytes,
    /// UTF-8 text.
    Utf8,
    /// UTF-8 text that claims to be JSON.
    Json,
    /// UTF-8 text that parses as JSON.
    JsonParseable,
}

impl Default for ColumnType {
    fn default() -> (r: Self)
        ensures
            r == ColumnType::Utf8,
    {
        ColumnType::Utf8
    }
}

/// Which timestamp a Kafka destination's records get.
#[derive(Debug, Clone, Copy, PartialEq, Eq, Structural)]
pub enum TimestampMode {
    /// The source record's.
    Source,
    /// The destination broker's.
    Destination,
}

impl Default for TimestampMode {
    fn default() -> (r: Self)
        ensures
            r == TimestampMode::Source,
    {
        TimestampMode::Source
    }
}

/// How stored records are compacted.
#[derive(Debug, Clone, Copy, PartialEq, Eq, Structural)]
pub enum Compaction {
    /// Each file is a snapshot of the latest value of every key.
    Log,
}

/// The format of stored files.
#[derive(Debug, Clone, Copy, PartialEq, Eq, Structural)]
pub enum DestinationFormat {
    Parquet,
    Ndjson,
}

impl Default for DestinationFormat {
    fn default() -> (r: Self)
        ensures
            r == DestinationFormat::Parquet,
    {
        DestinationFormat::Parquet
    }
}

/// How Parquet files are compressed.
#[derive(Debug, Clone, Copy, PartialEq, Eq, Structural)]
pub enum ParquetCompression {
    Zstd1,
    Zstd3,
    Snappy,
    Lz4,
    Uncompressed,
}

impl Default for ParquetCompression {
    fn default() -> (r: Self)
        ensures
            r == ParquetCompression::Zstd1,
    {
        ParquetCompression::Zstd1
    }
}

/// When collected records are stored: as soon as any limit is reached.
#[derive(Debug, PartialEq)]
pub struct FlushTriggers {
    pub max_time_ms: u64,
    pub max_bytes: u64,
    pub max_offsets: u64,
    /// A time of day at which they are stored in any case.
    pub daily: Option<DailyFlush>,
}

/// A time of day, in UTC.
#[derive(Debug, PartialEq)]
pub struct DailyFlush {
    /// `HH:MM` or `HH:MM:SS`.
    pub at_utc: String,
}

/// Why a time of day cannot be read.
#[derive(Debug, PartialEq, Eq)]
pub enum AtUtcError {
    Format(String),
    Range(String),
}

impl AtUtcError {
    pub open spec fn text(&self) -> Seq<char> {
        match self {
            AtUtcError::Format(s) => "at-utc must be HH:MM or HH:MM:SS, got "@ + debug_quoted(s@),
            AtUtcError::Range(s) => "at-utc out of range (HH 0-23, MM 0-59, SS 0-59), got "@
                + debug_quoted(s@),
        }
    }

    /// The error in words.
    pub fn message(&self) -> (r: String)
        ensures
            r@ == self.text(),
    {
        match self {
            AtUtcError::Format(s) => "at-utc must be HH:MM or HH:MM:SS, got ".to_owned().concat(
                debug_text(s.as_str()).as_str(),
            ),
            AtUtcError::Range(
                s,
            ) => "at-utc out of range (HH 0-23, MM 0-59, SS 0-59), got ".to_owned().concat(
                debug_text(s.as_str()).as_str(),
            ),
        }
    }
}

/// The pieces of `s` between the occurrences of `c`.
pub open spec fn split_on(s: Seq<char>, c: char) -> Seq<Seq<char>>
    decreases s.len(),
{
    let p = find_char(s, c);
    if p >= s.len() {
        seq![s]
    } else {
        seq![s.take(p as int)] + split_on(s.skip(p as int + 1), c)
    }
}

/// A number of at most `u32::MAX`.
pub open spec fn small_number(s: Seq<char>) -> Option<nat> {
    parse_unsigned(s, u32::MAX as nat)
}

/// The hours, minutes and seconds of a time of day, as written. The
/// seconds may be left out.
pub open spec fn clock_fields(s: Seq<char>) -> Option<(nat, nat, nat)> {
    let p = split_on(s, ':');
    if p.len() == 2 {
        match (small_number(p[0]), small_number(p[1])) {
            (Some(h), Some(m)) => Some((h, m, 0)),
            _ => None,
        }
    } else if p.len() == 3 {
        match (small_number(p[0]), small_number(p[1]), small_number(p[2])) {
            (Some(h), Some(m), Some(sec)) => Some((h, m, sec)),
            _ => None,
        }
    } else {
        None
    }
}

/// Whether the fields are a time of day.
pub open spec fn on_the_clock(t: (nat, nat, nat)) -> bool {
    t.0 <= 23 && t.1 <= 59 && t.2 <= 59
}

/// The pieces of a text between the occurrences of `c`.
fn split_chars(v: &Vec<char>, c: char) -> (r: Vec<Vec<char>>)
    ensures
        r.len() == split_on(v@, c).len(),
        forall|i: int| 0 <= i < r.len() ==> (#[trigger] r@[i])@ == split_on(v@, c)[i],
{
    let mut out: Vec<Vec<char>> = Vec::new();
    let mut start: usize = 0;
    let mut i: usize = 0;
    let ghost all = split_on(v@, c);
    assert(v@.skip(0) =~= v@);
    assert(v@.subrange(0, 0) =~= Seq::<char>::empty());
    assert(split_on(v@, c) =~= Seq::<Seq<char>>::empty() + split_on(v@.skip(0), c));
    while i < v.len()
        invariant
            start <= i <= v.len(),
            all == split_on(v@, c),
            find_char(v@.skip(start as int), c) == (i - start) + find_char(v@.skip(i as int), c),
            all.len() == out.len() + split_on(v@.skip(start as int), c).len(),
            forall|k: int| 0 <= k < out.len() ==> (#[trigger] out@[k])@ == all[k],
            forall|k: int|
                0 <= k < split_on(v@.skip(start as int), c).len() ==> all[out.len() + k]
                    == #[trigger] split_on(v@.skip(start as int), c)[k],
        decreases v.len() - i,
    {
        let ghost rest = v@.skip(start as int);
        assert(v@.skip(i as int).skip(1) =~= v@.skip(i + 1));
        if v[i] == c {
            let piece = sub_chars(v, start, i);
            let ghost tail = rest.skip(i - start + 1);
            proof {
                assert(find_char(rest, c) == i - start);
                assert(rest.take(i - start) =~= v@.subrange(start as int, i as int));
                assert(tail =~= v@.skip(i + 1));
                assert(split_on(rest, c) == seq![rest.take(i - start)] + split_on(tail, c));
                assert(all[out.len() + 0] == split_on(rest, c)[0]);
                assert forall|k: int| 0 <= k < split_on(tail, c).len() implies all[out.len() + 1 + k]
                    == #[trigger] split_on(tail, c)[k] by {
                    assert(split_on(rest, c)[k + 1] == split_on(tail, c)[k]);
                    assert(all[out.len() + (k + 1)] == split_on(rest, c)[k + 1]);
                }
            }
            out.push(piece);
            start = i + 1;
        }
        i += 1;
    }
    let ghost rest = v@.skip(start as int);
    let last = sub_chars(v, start, v.len());
    proof {
        assert(find_char(v@.skip(i as int), c) == 0);
        assert(split_on(rest, c) == seq![rest]);
        assert(all[out.len() + 0] == split_on(rest, c)[0]);
        assert(rest =~= v@.subrange(start as int, v.len() as int));
    }
    out.push(last);
    out
}

impl DailyFlush {
    /// The seconds from midnight to the time of day.
    pub fn parse_at_utc(&self) -> (r: Result<u32, AtUtcError>)
        ensures
            match clock_fields(self.at_utc@) {
                None => r matches Err(AtUtcError::Format(s)) && s@ == self.at_utc@,
                Some(t) => if on_the_clock(t) {
                    r matches Ok(secs) && secs == t.0 * 3600 + t.1 * 60 + t.2
                } else {
                    r matches Err(AtUtcError::Range(s)) && s@ == self.at_utc@
                },
            },
            r matches Ok(secs) ==> secs < 86400,
    {
        let parts = split_chars(&chars_of(self.at_utc.as_str()), ':');
        if parts.len() != 2 && parts.len() != 3 {
            return Err(AtUtcError::Format(self.at_utc.clone()));
        }
        let h: u64 = match parse_digits(&parts[0], u32::MAX as u64) {
            Some(n) => n,
            None => {
                return Err(AtUtcError::Format(self.at_utc.clone()));
            },
        };
        let m: u64 = match parse_digits(&parts[1], u32::MAX as u64) {
            Some(n) => n,
            None => {
                return Err(AtUtcError::Format(self.at_utc.clone()));
            },
        };
        let s: u64 = if parts.len() == 3 {
            match parse_digits(&parts[2], u32::MAX as u64) {
                Some(n) => n,
                None => {
                    return Err(AtUtcError::Format(self.at_utc.clone()));
                },
            }
        } else {
            0
        };
        if h > 23 || m > 59 || s > 59 {
            return Err(AtUtcError::Range(self.at_utc.clone()));
        }
        Ok((h * 3600 + m * 60 + s) as u32)
    }
}

/// Why a configuration cannot be used.
#[derive(Debug, PartialEq, Eq)]
pub enum LoadError {
    /// The file cannot be read.
    Io { path: String, reason: String },
    /// The text is no configuration.
    Parse(String),
    /// The configuration breaks a rule.
    Validation(String),
    /// The text cannot be expanded.
    EnvSubst(EnvSubstError),
}

impl LoadError {
    pub open spec fn text(&self) -> Seq<char> {
        match self {
            LoadError::Io { path, reason } => "reading config file "@ + debug_quoted(path@) + ": "@
                + reason@,
            LoadError::Parse(m) => "parsing config: "@ + m@,
            LoadError::Validation(m) => "invalid config: "@ + m@,
            LoadError::EnvSubst(e) => "env interpolation: "@ + e.text(),
        }
    }

    /// The error in words.
    pub fn message(&self) -> (r: String)
        ensures
            r@ == self.text(),
    {
        match self {
            LoadError::Io { path, reason } => "reading config file ".to_owned().concat(
                debug_text(path.as_str()).as_str(),
            ).concat(": ").concat(reason.as_str()),
            LoadError::Parse(m) => "parsing config: ".to_owned().concat(m.as_str()),
            LoadError::Validation(m) => "invalid config: ".to_owned().concat(m.as_str()),
            LoadError::EnvSubst(e) => "env interpolation: ".to_owned().concat(e.message().as_str()),
        }
    }
}

} // verus!
