//! The rules that a configuration has to keep beyond its shape.
//!
//! The rules are checked in a fixed order and the first broken one is
//! reported.
use vstd::prelude::*;
use vstd::string::*;
use vstd::utf8::valid_utf8;

use crate::config::{
    called, given_name, ColumnType, Config, Destination, DestinationFormat, LoadError, Mirror,
    Notify, TriggerOn,
};
use crate::envsubst::{expand, expansion, Env};
use crate::text::{debug_quoted, debug_text, dec, decimal, same_text};
use crate::url::{parse_url, same_parts, url_parts};
use crate::utf8::{text_of_bytes, utf8_fault};

verus! {

/// What is wrong with a mirror, under its name.
pub open spec fn says(mirror: Seq<char>, what: Seq<char>) -> Seq<char> {
    "mirror "@ + debug_quoted(mirror) + ": "@ + what
}

/// The first fault of two.
pub open spec fn first_of(a: Option<Seq<char>>, b: Option<Seq<char>>) -> Option<Seq<char>> {
    if a is Some {
        a
    } else {
        b
    }
}

/// Whether the result reports exactly this fault, or none.
pub open spec fn reports(r: Result<(), LoadError>, fault: Option<Seq<char>>) -> bool {
    match (r, fault) {
        (Ok(_), None) => true,
        (Err(LoadError::Validation(m)), Some(f)) => m@ == f,
        _ => false,
    }
}

/// Whether some destination before the `i`-th has its name.
pub open spec fn name_taken(m: Mirror, i: int) -> bool {
    exists|j: int|
        0 <= j < i && #[trigger] called(m.destinations@[j], m.name@) == called(
            m.destinations@[i],
            m.name@,
        )
}

/// The first fault in the names of the destinations from the `i`-th on.
/// Several destinations need names of their own, all different.
pub open spec fn names_fault(m: Mirror, i: nat) -> Option<Seq<char>>
    decreases m.destinations@.len() - i,
{
    if i >= m.destinations@.len() {
        None
    } else if m.destinations@.len() > 1 && given_name(m.destinations@[i as int]) is None {
        Some(
            says(
                m.name@,
                "destination["@ + dec(i)
                    + "] requires an explicit `name` (mirrors with multiple destinations cannot share the default `name = mirror.name`)"@,
            ),
        )
    } else if name_taken(m, i as int) {
        Some(
            says(
                m.name@,
                "destination name "@ + debug_quoted(called(m.destinations@[i as int], m.name@))
                    + " appears more than once"@,
            ),
        )
    } else {
        names_fault(m, i + 1)
    }
}

pub open spec fn has_blob(m: Mirror) -> bool {
    exists|i: int| 0 <= i < m.destinations@.len() && !(#[trigger] m.destinations@[i] is Kafka)
}

pub open spec fn has_kafka(m: Mirror) -> bool {
    exists|i: int| 0 <= i < m.destinations@.len() && #[trigger] m.destinations@[i] is Kafka
}

/// The first of the settings that is present, by name.
pub open spec fn first_present(settings: Seq<(Seq<char>, bool)>) -> Option<Seq<char>>
    decreases settings.len(),
{
    if settings.len() == 0 {
        None
    } else if settings[0].1 {
        Some(settings[0].0)
    } else {
        first_present(settings.skip(1))
    }
}

/// Settings that say how files are stored.
pub open spec fn storage_settings(m: Mirror) -> Seq<(Seq<char>, bool)> {
    seq![
        ("format"@, m.format is Some),
        ("compression"@, m.compression is Some),
        ("compaction"@, m.compaction is Some),
        ("flush"@, m.flush is Some),
        ("http-access"@, m.http_access is Some),
    ]
}

/// Settings that say anything about destinations.
pub open spec fn destination_settings(m: Mirror) -> Seq<(Seq<char>, bool)> {
    seq![
        ("format"@, m.format is Some),
        ("compression"@, m.compression is Some),
        ("keys"@, m.keys is Some),
        ("values"@, m.values is Some),
        ("compaction"@, m.compaction is Some),
        ("flush"@, m.flush is Some),
        ("timestamp-mode"@, m.timestamp_mode is Some),
        ("http-access"@, m.http_access is Some),
    ]
}

/// A mirror that only goes to Kafka stores no files.
pub open spec fn storage_fault(m: Mirror) -> Option<Seq<char>> {
    if has_blob(m) {
        None
    } else {
        match first_present(storage_settings(m)) {
            Some(field) => Some(
                says(
                    m.name@,
                    "`"@ + field
                        + "` is only valid when at least one destination is filesystem/s3"@,
                ),
            ),
            None => None,
        }
    }
}

pub open spec fn timestamp_fault(m: Mirror) -> Option<Seq<char>> {
    if !has_kafka(m) && m.timestamp_mode is Some {
        Some(
            says(
                m.name@,
                "`timestamp-mode` only affects Kafka destinations; this mirror has none"@,
            ),
        )
    } else {
        None
    }
}

pub open spec fn key_kind(m: Mirror) -> ColumnType {
    match m.keys {
        Some(c) => c.kind,
        None => ColumnType::Utf8,
    }
}

pub open spec fn value_kind(m: Mirror) -> ColumnType {
    match m.values {
        Some(c) => c.kind,
        None => ColumnType::Utf8,
    }
}

/// What a mirror that stores files needs, and what does not go together.
pub open spec fn encoding_fault(m: Mirror) -> Option<Seq<char>> {
    let ndjson = m.format == Some(DestinationFormat::Ndjson);
    if !has_blob(m) {
        None
    } else if m.flush is None {
        Some(says(m.name@, "`flush` is required when any destination is filesystem/s3"@))
    } else if ndjson && (key_kind(m) != ColumnType::Utf8 || value_kind(m) != ColumnType::Utf8) {
        Some(
            says(
                m.name@,
                "ndjson does not honour `keys`/`values` types; remove them or switch to `format: parquet`"@,
            ),
        )
    } else if ndjson && m.compaction is Some {
        Some(says(m.name@, "`compaction` requires `format: parquet`"@))
    } else if m.http_access is Some && key_kind(m) == ColumnType::Bytes {
        Some(
            says(
                m.name@,
                "`http-access` requires `keys.type` ∈ {utf8, json, json-parseable}; /cache/v1 routes keys through URL path segments"@,
            ),
        )
    } else {
        None
    }
}

/// What is wrong with the `i`-th target of a notification, given the
/// parts of its URL.
pub open spec fn target_fault(
    mirror: Seq<char>,
    i: nat,
    parts: Result<(Seq<char>, Option<Seq<char>>), Seq<char>>,
) -> Option<Seq<char>> {
    let target = "notify.targets["@ + dec(i) + "].url"@;
    match parts {
        Err(e) => Some(says(mirror, target + " is not a valid URL: "@ + e)),
        Ok((scheme, host)) => if scheme != "http"@ && scheme != "https"@ {
            Some(
                says(
                    mirror,
                    target + " must use scheme http or https, got "@ + debug_quoted(scheme),
                ),
            )
        } else if host is None || host->0.len() == 0 {
            Some(says(mirror, target + " has no host"@))
        } else {
            None
        },
    }
}

/// The first fault in the targets from the `i`-th on.
pub open spec fn targets_fault(mirror: Seq<char>, n: Notify, i: nat) -> Option<Seq<char>>
    decreases n.targets@.len() - i,
{
    if i >= n.targets@.len() {
        None
    } else {
        first_of(
            target_fault(mirror, i, url_parts(n.targets@[i as int].url@)),
            targets_fault(mirror, n, i + 1),
        )
    }
}

/// What is wrong with the limits of a notification.
pub open spec fn limits_fault(mirror: Seq<char>, n: Notify) -> Option<Seq<char>> {
    if n.timeout_ms < 1 {
        Some(says(mirror, "`notify.timeout-ms` must be >= 1"@))
    } else if n.retry.max_attempts < 1 {
        Some(says(mirror, "`notify.retry.max-attempts` must be >= 1"@))
    } else if n.retry.backoff_ms < 1 {
        Some(says(mirror, "`notify.retry.backoff-ms` must be >= 1"@))
    } else {
        match n.trigger.on {
            TriggerOn::SourceConsume => match n.trigger.debounce {
                None => Some(
                    says(
                        mirror,
                        "`notify.trigger.debounce` is required when `trigger.on: source-consume`"@,
                    ),
                ),
                Some(d) => if d.max_records < 1 {
                    Some(says(mirror, "`notify.trigger.debounce.max-records` must be >= 1"@))
                } else if d.max_time_ms < 1 {
                    Some(says(mirror, "`notify.trigger.debounce.max-time-ms` must be >= 1"@))
                } else {
                    None
                },
            },
            TriggerOn::DestinationFlush => if n.trigger.debounce is Some {
                Some(
                    says(
                        mirror,
                        "`notify.trigger.debounce` is forbidden when `trigger.on: destination-flush`; the destination flush triggers are the debounce in that mode"@,
                    ),
                )
            } else {
                None
            },
        }
    }
}

/// What is wrong with a notification, whatever the mirror.
pub open spec fn notify_fault(mirror: Seq<char>, n: Notify) -> Option<Seq<char>> {
    if n.targets@.len() == 0 {
        Some(says(mirror, "`notify.targets` must contain at least one entry"@))
    } else {
        first_of(targets_fault(mirror, n, 0), limits_fault(mirror, n))
    }
}

/// What is wrong with a mirror that only notifies.
pub open spec fn notify_only_fault(m: Mirror, n: Notify) -> Option<Seq<char>> {
    match first_present(destination_settings(m)) {
        Some(field) => Some(
            says(
                m.name@,
                "notify-only mirrors (no destinations) cannot set `"@ + field
                    + "`; there is nothing for it to apply to"@,
            ),
        ),
        None => if n.trigger.on == TriggerOn::DestinationFlush {
            Some(
                says(
                    m.name@,
                    "notify-only mirrors must use `trigger.on: source-consume` (no destinations to flush)"@,
                ),
            )
        } else {
            notify_fault(m.name@, n)
        },
    }
}

/// What is wrong with the notification of a mirror with destinations:
/// its receivers are told to read values back over HTTP.
pub open spec fn attached_notify_fault(m: Mirror) -> Option<Seq<char>> {
    match m.notify {
        None => None,
        Some(n) => if m.http_access is None {
            Some(
                says(
                    m.name@,
                    "`notify` requires `http-access: { api: cache-v1 }` on the same mirror (the notify body tells consumers to re-read via /cache/v1)"@,
                ),
            )
        } else {
            notify_fault(m.name@, n)
        },
    }
}

/// The first rule that a mirror breaks.
pub open spec fn mirror_fault(m: Mirror) -> Option<Seq<char>> {
    if m.destinations@.len() == 0 {
        match m.notify {
            None => Some(
                says(
                    m.name@,
                    "`destinations` must contain at least one entry, unless `notify` is set (notify-only mirrors are allowed)"@,
                ),
            ),
            Some(n) => if n.targets@.len() == 0 {
                Some(
                    says(
                        m.name@,
                        "notify-only mirror requires `notify.targets` to be non-empty"@,
                    ),
                )
            } else {
                notify_only_fault(m, n)
            },
        }
    } else {
        first_of(
            names_fault(m, 0),
            first_of(
                storage_fault(m),
                first_of(
                    timestamp_fault(m),
                    first_of(encoding_fault(m), attached_notify_fault(m)),
                ),
            ),
        )
    }
}

/// The first fault in the mirrors from the `i`-th on.
pub open spec fn mirrors_fault(mirrors: Seq<Mirror>, i: nat) -> Option<Seq<char>>
    decreases mirrors.len() - i,
{
    if i >= mirrors.len() {
        None
    } else if exists|j: int| 0 <= j < i && (#[trigger] mirrors[j]).name@ == mirrors[i as int].name@ {
        Some(
            "mirror name "@ + debug_quoted(mirrors[i as int].name@) + " appears more than once"@,
        )
    } else {
        first_of(
            mirror_fault(mirrors[i as int]),
            first_of(main_fault(mirrors, i as int), mirrors_fault(mirrors, i + 1)),
        )
    }
}

/// What is wrong where the `i`-th mirror wants to be the one that is read
/// where a request names none: an earlier one wants it too.
pub open spec fn main_fault(mirrors: Seq<Mirror>, i: int) -> Option<Seq<char>> {
    if mirrors[i].opts_into_main() && exists|j: int|
        0 <= j < i && (#[trigger] mirrors[j]).opts_into_main() {
        Some(
            says(
                mirrors[i].name@,
                "`http-access: { api: cache-v1-main }` is only valid on one mirror"@,
            ),
        )
    } else {
        None
    }
}

fn complain(mirror: &str, what: &str) -> (r: Result<(), LoadError>)
    ensures
        reports(r, Some(says(mirror@, what@))),
{
    Err(
        LoadError::Validation(
            "mirror ".to_owned().concat(debug_text(mirror).as_str()).concat(": ").concat(what),
        ),
    )
}

/// The name of the destination as given, if it was.
fn raw_destination_name(d: &Destination) -> (r: Option<&String>)
    ensures
        r is Some <==> given_name(*d) is Some,
        r matches Some(n) ==> given_name(*d) == Some(n@),
{
    match d {
        Destination::Kafka(k) => k.name.as_ref(),
        Destination::Filesystem(f) => f.name.as_ref(),
        Destination::S3(s) => s.name.as_ref(),
    }
}

fn validate_names(m: &Mirror) -> (r: Result<(), LoadError>)
    ensures
        reports(r, names_fault(*m, 0)),
{
    let multi = m.destinations.len() > 1;
    let mut i: usize = 0;
    while i < m.destinations.len()
        invariant
            i <= m.destinations.len(),
            multi == (m.destinations.len() > 1),
            names_fault(*m, 0) == names_fault(*m, i as nat),
        decreases m.destinations.len() - i,
    {
        if multi && raw_destination_name(&m.destinations[i]).is_none() {
            return complain(
                m.name.as_str(),
                "destination[".to_owned().concat(decimal(i as u64).as_str()).concat(
                    "] requires an explicit `name` (mirrors with multiple destinations cannot share the default `name = mirror.name`)",
                ).as_str(),
            );
        }
        let name = m.destinations[i].effective_name(m.name.as_str());
        let mut j: usize = 0;
        while j < i
            invariant
                j <= i < m.destinations.len(),
                name@ == called(m.destinations@[i as int], m.name@),
                forall|k: int| 0 <= k < j ==> #[trigger] called(m.destinations@[k], m.name@) != name@,
                multi == (m.destinations.len() > 1),
                multi ==> given_name(m.destinations@[i as int]) is Some,
                names_fault(*m, 0) == names_fault(*m, i as nat),
            decreases i - j,
        {
            let other = m.destinations[j].effective_name(m.name.as_str());
            if other == name {
                assert(name_taken(*m, i as int));
                return complain(
                    m.name.as_str(),
                    "destination name ".to_owned().concat(
                        debug_text(name.as_str()).as_str(),
                    ).concat(" appears more than once").as_str(),
                );
            }
            j += 1;
        }
        i += 1;
    }
    Ok(())
}

/// The first of the settings that is present.
fn find_present<'a>(settings: &Vec<(&'a str, bool)>) -> (r: Option<&'a str>)
    ensures
        ({
            let s = settings@.map_values(|e: (&'a str, bool)| (e.0@, e.1));
            &&& r is Some <==> first_present(s) is Some
            &&& r matches Some(f) ==> first_present(s) == Some(f@)
        }),
{
    let ghost s = settings@.map_values(|e: (&'a str, bool)| (e.0@, e.1));
    let mut i: usize = 0;
    assert(s.skip(0) =~= s);
    while i < settings.len()
        invariant
            i <= settings.len(),
            s == settings@.map_values(|e: (&'a str, bool)| (e.0@, e.1)),
            first_present(s) == first_present(s.skip(i as int)),
        decreases settings.len() - i,
    {
        assert(s.skip(i as int)[0] == s[i as int]);
        assert(s.skip(i as int).skip(1) =~= s.skip(i + 1));
        if settings[i].1 {
            return Some(settings[i].0);
        }
        i += 1;
    }
    None
}

fn any_kafka(m: &Mirror, kafka: bool) -> (r: bool)
    ensures
        kafka ==> r == has_kafka(*m),
        !kafka ==> r == has_blob(*m),
{
    let mut i: usize = 0;
    while i < m.destinations.len()
        invariant
            i <= m.destinations.len(),
            forall|j: int| 0 <= j < i ==> (#[trigger] m.destinations@[j] is Kafka) != kafka,
        decreases m.destinations.len() - i,
    {
        if m.destinations[i].is_blob() != kafka {
            return true;
        }
        i += 1;
    }
    false
}

/// Check the `i`-th target of a notification, given the parts of its URL.
pub fn check_target(
    mirror: &str,
    i: usize,
    parsed: &Result<(String, Option<String>), String>,
) -> (r: Result<(), LoadError>)
    ensures
        forall|parts: Result<(Seq<char>, Option<Seq<char>>), Seq<char>>|
            same_parts(*parsed, parts) ==> reports(
                r,
                #[trigger] target_fault(mirror@, i as nat, parts),
            ),
{
    let target = "notify.targets[".to_owned().concat(decimal(i as u64).as_str()).concat("].url");
    match parsed {
        Err(e) => complain(
            mirror,
            target.concat(" is not a valid URL: ").concat(e.as_str()).as_str(),
        ),
        Ok((scheme, host)) => {
            if !same_text(scheme.as_str(), "http") && !same_text(scheme.as_str(), "https") {
                return complain(
                    mirror,
                    target.concat(" must use scheme http or https, got ").concat(
                        debug_text(scheme.as_str()).as_str(),
                    ).as_str(),
                );
            }
            let no_host = match host {
                Some(h) => h.as_str().is_empty(),
                None => true,
            };
            if no_host {
                return complain(mirror, target.concat(" has no host").as_str());
            }
            Ok(())
        },
    }
}

/// Check a notification, whatever the mirror.
fn validate_notify_shared(mirror: &str, n: &Notify) -> (r: Result<(), LoadError>)
    ensures
        reports(r, notify_fault(mirror@, *n)),
{
    if n.targets.len() == 0 {
        return complain(mirror, "`notify.targets` must contain at least one entry");
    }
    let mut i: usize = 0;
    while i < n.targets.len()
        invariant
            i <= n.targets.len(),
            targets_fault(mirror@, *n, 0) == targets_fault(mirror@, *n, i as nat),
        decreases n.targets.len() - i,
    {
        let parsed = parse_url(n.targets[i].url.as_str());
        let checked = check_target(mirror, i, &parsed);
        proof {
            let parts = url_parts(n.targets@[i as int].url@);
            assert(reports(checked, target_fault(mirror@, i as nat, parts)));
        }
        if checked.is_err() {
            return checked;
        }
        i += 1;
    }
    if n.timeout_ms < 1 {
        return complain(mirror, "`notify.timeout-ms` must be >= 1");
    }
    if n.retry.max_attempts < 1 {
        return complain(mirror, "`notify.retry.max-attempts` must be >= 1");
    }
    if n.retry.backoff_ms < 1 {
        return complain(mirror, "`notify.retry.backoff-ms` must be >= 1");
    }
    match n.trigger.on {
        TriggerOn::SourceConsume => match n.trigger.debounce {
            None => complain(
                mirror,
                "`notify.trigger.debounce` is required when `trigger.on: source-consume`",
            ),
            Some(d) => if d.max_records < 1 {
                complain(mirror, "`notify.trigger.debounce.max-records` must be >= 1")
            } else if d.max_time_ms < 1 {
                complain(mirror, "`notify.trigger.debounce.max-time-ms` must be >= 1")
            } else {
                Ok(())
            },
        },
        TriggerOn::DestinationFlush => if n.trigger.debounce.is_some() {
            complain(
                mirror,
                "`notify.trigger.debounce` is forbidden when `trigger.on: destination-flush`; the destination flush triggers are the debounce in that mode",
            )
        } else {
            Ok(())
        },
    }
}

/// Check a mirror that only notifies.
fn validate_notify_only(m: &Mirror, n: &Notify) -> (r: Result<(), LoadError>)
    ensures
        reports(r, notify_only_fault(*m, *n)),
{
    let settings = vec![
        ("format", m.format.is_some()),
        ("compression", m.compression.is_some()),
        ("keys", m.keys.is_some()),
        ("values", m.values.is_some()),
        ("compaction", m.compaction.is_some()),
        ("flush", m.flush.is_some()),
        ("timestamp-mode", m.timestamp_mode.is_some()),
        ("http-access", m.http_access.is_some()),
    ];
    assert(settings@.map_values(|e: (&str, bool)| (e.0@, e.1)) =~= destination_settings(*m));
    if let Some(field) = find_present(&settings) {
        return complain(
            m.name.as_str(),
            "notify-only mirrors (no destinations) cannot set `".to_owned().concat(field).concat(
                "`; there is nothing for it to apply to",
            ).as_str(),
        );
    }
    if matches!(n.trigger.on, TriggerOn::DestinationFlush) {
        return complain(
            m.name.as_str(),
            "notify-only mirrors must use `trigger.on: source-consume` (no destinations to flush)",
        );
    }
    validate_notify_shared(m.name.as_str(), n)
}

fn validate_encoding(m: &Mirror) -> (r: Result<(), LoadError>)
    requires
        has_blob(*m),
    ensures
        reports(r, encoding_fault(*m)),
{
    if m.flush.is_none() {
        return complain(
            m.name.as_str(),
            "`flush` is required when any destination is filesystem/s3",
        );
    }
    let keys = match m.keys {
        Some(c) => c.kind,
        None => ColumnType::Utf8,
    };
    let values = match m.values {
        Some(c) => c.kind,
        None => ColumnType::Utf8,
    };
    if matches!(m.format, Some(DestinationFormat::Ndjson)) {
        if !matches!(keys, ColumnType::Utf8) || !matches!(values, ColumnType::Utf8) {
            return complain(
                m.name.as_str(),
                "ndjson does not honour `keys`/`values` types; remove them or switch to `format: parquet`",
            );
        }
        if m.compaction.is_some() {
            return complain(m.name.as_str(), "`compaction` requires `format: parquet`");
        }
    }
    if m.http_access.is_some() && matches!(keys, ColumnType::Bytes) {
        return complain(
            m.name.as_str(),
            "`http-access` requires `keys.type` ∈ {utf8, json, json-parseable}; /cache/v1 routes keys through URL path segments",
        );
    }
    Ok(())
}

/// Check one mirror.
pub fn validate_mirror(m: &Mirror) -> (r: Result<(), LoadError>)
    ensures
        reports(r, mirror_fault(*m)),
{
    if m.destinations.len() == 0 {
        return match &m.notify {
            None => complain(
                m.name.as_str(),
                "`destinations` must contain at least one entry, unless `notify` is set (notify-only mirrors are allowed)",
            ),
            Some(n) => if n.targets.len() == 0 {
                complain(
                    m.name.as_str(),
                    "notify-only mirror requires `notify.targets` to be non-empty",
                )
            } else {
                validate_notify_only(m, n)
            },
        };
    }
    let named = validate_names(m);
    if named.is_err() {
        return named;
    }
    let blob = any_kafka(m, false);
    let kafka = any_kafka(m, true);
    if !blob {
        let settings = vec![
            ("format", m.format.is_some()),
            ("compression", m.compression.is_some()),
            ("compaction", m.compaction.is_some()),
            ("flush", m.flush.is_some()),
            ("http-access", m.http_access.is_some()),
        ];
        assert(settings@.map_values(|e: (&str, bool)| (e.0@, e.1)) =~= storage_settings(*m));
        if let Some(field) = find_present(&settings) {
            return complain(
                m.name.as_str(),
                "`".to_owned().concat(field).concat(
                    "` is only valid when at least one destination is filesystem/s3",
                ).as_str(),
            );
        }
    }
    if !kafka && m.timestamp_mode.is_some() {
        return complain(
            m.name.as_str(),
            "`timestamp-mode` only affects Kafka destinations; this mirror has none",
        );
    }
    if blob {
        let encoded = validate_encoding(m);
        if encoded.is_err() {
            return encoded;
        }
    }
    match &m.notify {
        None => Ok(()),
        Some(n) => if m.http_access.is_none() {
            complain(
                m.name.as_str(),
                "`notify` requires `http-access: { api: cache-v1 }` on the same mirror (the notify body tells consumers to re-read via /cache/v1)",
            )
        } else {
            validate_notify_shared(m.name.as_str(), n)
        },
    }
}

/// Check a configuration: mirror names differ, every mirror keeps its
/// rules, and at most one is the main one.
pub fn validate(cfg: &Config) -> (r: Result<(), LoadError>)
    ensures
        reports(r, mirrors_fault(cfg.mirrors@, 0)),
{
    let mut i: usize = 0;
    while i < cfg.mirrors.len()
        invariant
            i <= cfg.mirrors.len(),
            mirrors_fault(cfg.mirrors@, 0) == mirrors_fault(cfg.mirrors@, i as nat),
        decreases cfg.mirrors.len() - i,
    {
        let m = &cfg.mirrors[i];
        let mut j: usize = 0;
        while j < i
            invariant
                j <= i < cfg.mirrors.len(),
                *m == cfg.mirrors@[i as int],
                forall|k: int| 0 <= k < j ==> (#[trigger] cfg.mirrors@[k]).name@ != m.name@,
                mirrors_fault(cfg.mirrors@, 0) == mirrors_fault(cfg.mirrors@, i as nat),
            decreases i - j,
        {
            if cfg.mirrors[j].name == m.name {
                return Err(
                    LoadError::Validation(
                        "mirror name ".to_owned().concat(
                            debug_text(m.name.as_str()).as_str(),
                        ).concat(" appears more than once"),
                    ),
                );
            }
            j += 1;
        }
        let checked = validate_mirror(m);
        if checked.is_err() {
            return checked;
        }
        if m.is_main() {
            let main = validate_main(cfg, i);
            if main.is_err() {
                return main;
            }
        }
        i += 1;
    }
    Ok(())
}

/// Check that no mirror before the `i`-th is the main one.
fn validate_main(cfg: &Config, i: usize) -> (r: Result<(), LoadError>)
    requires
        i < cfg.mirrors.len(),
        cfg.mirrors@[i as int].opts_into_main(),
    ensures
        reports(r, main_fault(cfg.mirrors@, i as int)),
{
    let mut j: usize = 0;
    while j < i
        invariant
            j <= i < cfg.mirrors.len(),
            cfg.mirrors@[i as int].opts_into_main(),
            forall|k: int| 0 <= k < j ==> !(#[trigger] cfg.mirrors@[k]).opts_into_main(),
        decreases i - j,
    {
        if cfg.mirrors[j].is_main() {
            assert(cfg.mirrors@[j as int].opts_into_main());
            return complain(
                cfg.mirrors[i].name.as_str(),
                "`http-access: { api: cache-v1-main }` is only valid on one mirror",
            );
        }
        j += 1;
    }
    Ok(())
}

/// The text of a configuration file. It must be UTF-8.
pub fn config_text<'a>(path: &str, bytes: &'a [u8]) -> (r: Result<&'a str, LoadError>)
    ensures
        r is Ok <==> valid_utf8(bytes@),
        r matches Ok(s) ==> s.spec_bytes() == bytes@,
        r matches Err(e) ==> e matches LoadError::Validation(m) && m@ == "config file "@
            + debug_quoted(path@) + " is not valid UTF-8: "@ + utf8_fault(bytes@),
{
    match text_of_bytes(bytes) {
        Ok(s) => Ok(s),
        Err(e) => Err(
            LoadError::Validation(
                "config file ".to_owned().concat(debug_text(path).as_str()).concat(
                    " is not valid UTF-8: ",
                ).concat(e.as_str()),
            ),
        ),
    }
}

/// The text of a configuration with its references expanded.
pub fn expand_config<E: Env>(yaml: &str, env: &E) -> (r: Result<String, LoadError>)
    ensures
        match (r, expansion(yaml@, env)) {
            (Ok(s), Ok(t)) => s@ == t,
            (Err(LoadError::EnvSubst(e)), Err(f)) => e@ == f,
            _ => false,
        },
{
    match expand(yaml, env) {
        Ok(s) => Ok(s),
        Err(e) => Err(LoadError::EnvSubst(e)),
    }
}

/// Take over a parsed configuration, or the parser's complaint: only a
/// configuration that keeps the rules is handed out.
pub fn accept_config(parsed: Result<Config, String>) -> (r: Result<Config, LoadError>)
    ensures
        match parsed {
            Err(e) => r == Err::<Config, LoadError>(LoadError::Parse(e)),
            Ok(cfg) => match mirrors_fault(cfg.mirrors@, 0) {
                None => r == Ok::<Config, LoadError>(cfg),
                Some(f) => r matches Err(LoadError::Validation(m)) && m@ == f,
            },
        },
{
    match parsed {
        Err(e) => Err(LoadError::Parse(e)),
        Ok(cfg) => match validate(&cfg) {
            Ok(_) => Ok(cfg),
            Err(e) => Err(e),
        },
    }
}

// ---- the rules, without their order ---------------------------------------

/// A target that can be notified: an HTTP URL with a host.
pub open spec fn target_ok(url: Seq<char>) -> bool {
    url_parts(url) matches Ok((scheme, host)) && (scheme == "http"@ || scheme == "https"@)
        && host is Some && host->0.len() > 0
}

/// A notification that can be sent.
pub open spec fn notify_ok(n: Notify) -> bool {
    &&& n.targets@.len() > 0
    &&& forall|i: int| 0 <= i < n.targets@.len() ==> target_ok((#[trigger] n.targets@[i]).url@)
    &&& n.timeout_ms >= 1
    &&& n.retry.max_attempts >= 1
    &&& n.retry.backoff_ms >= 1
    &&& match n.trigger.on {
        TriggerOn::SourceConsume => n.trigger.debounce matches Some(d) && d.max_records >= 1
            && d.max_time_ms >= 1,
        TriggerOn::DestinationFlush => n.trigger.debounce is None,
    }
}

/// Destinations that can be told apart.
pub open spec fn names_ok(m: Mirror) -> bool {
    &&& m.destinations@.len() > 1 ==> forall|i: int|
        0 <= i < m.destinations@.len() ==> given_name(#[trigger] m.destinations@[i]) is Some
    &&& forall|i: int, j: int|
        0 <= j < i < m.destinations@.len() ==> #[trigger] called(m.destinations@[j], m.name@)
            != #[trigger] called(m.destinations@[i], m.name@)
}

/// A mirror that can be run.
pub open spec fn mirror_ok(m: Mirror) -> bool {
    if m.destinations@.len() == 0 {
        &&& m.notify is Some
        &&& notify_ok(m.notify->0)
        &&& m.notify->0.trigger.on == TriggerOn::SourceConsume
        &&& m.format is None && m.compression is None && m.keys is None && m.values is None
        &&& m.compaction is None && m.flush is None && m.timestamp_mode is None
        &&& m.http_access is None
    } else {
        &&& names_ok(m)
        &&& !has_blob(m) ==> m.format is None && m.compression is None && m.compaction is None
            && m.flush is None && m.http_access is None
        &&& m.timestamp_mode is Some ==> has_kafka(m)
        &&& has_blob(m) ==> m.flush is Some
        &&& has_blob(m) && m.format == Some(DestinationFormat::Ndjson) ==> key_kind(m)
            == ColumnType::Utf8 && value_kind(m) == ColumnType::Utf8 && m.compaction is None
        &&& m.http_access is Some ==> has_blob(m) && key_kind(m) != ColumnType::Bytes
        &&& m.notify matches Some(n) ==> m.http_access is Some && notify_ok(n)
    }
}

proof fn lemma_targets(mirror: Seq<char>, n: Notify, i: nat)
    ensures
        targets_fault(mirror, n, i) is None <==> forall|j: int|
            i <= j < n.targets@.len() ==> target_ok((#[trigger] n.targets@[j]).url@),
    decreases n.targets@.len() - i,
{
    if i < n.targets@.len() {
        lemma_targets(mirror, n, i + 1);
        let parts = url_parts(n.targets@[i as int].url@);
        assert(target_fault(mirror, i, parts) is None <==> target_ok(n.targets@[i as int].url@));
    }
}

proof fn lemma_notify(mirror: Seq<char>, n: Notify)
    ensures
        notify_fault(mirror, n) is None <==> notify_ok(n),
{
    lemma_targets(mirror, n, 0);
}

proof fn lemma_names(m: Mirror, i: nat)
    ensures
        names_fault(m, i) is None <==> forall|k: int|
            i <= k < m.destinations@.len() ==> (m.destinations@.len() > 1 ==> given_name(
                #[trigger] m.destinations@[k],
            ) is Some) && !name_taken(m, k),
    decreases m.destinations@.len() - i,
{
    if i < m.destinations@.len() {
        lemma_names(m, i + 1);
        let d = m.destinations@[i as int];
        if names_fault(m, i) is None {
            assert forall|k: int| i <= k < m.destinations@.len() implies (m.destinations@.len() > 1
                ==> given_name(#[trigger] m.destinations@[k]) is Some) && !name_taken(m, k) by {
                if k > i {
                    assert(i + 1 <= k);
                }
            }
        }
    }
}

proof fn lemma_present(settings: Seq<(Seq<char>, bool)>)
    ensures
        first_present(settings) is None <==> forall|i: int|
            0 <= i < settings.len() ==> !(#[trigger] settings[i]).1,
    decreases settings.len(),
{
    if settings.len() > 0 {
        lemma_present(settings.skip(1));
        assert forall|i: int| 0 < i < settings.len() implies settings[i] == #[trigger] settings.skip(
            1,
        )[i - 1] by {}
        if first_present(settings) is None {
            assert forall|i: int| 0 <= i < settings.len() implies !(#[trigger] settings[i]).1 by {
                if i > 0 {
                    assert(!settings.skip(1)[i - 1].1);
                }
            }
        }
    }
}

/// A mirror passes exactly when it keeps every rule: destinations can be
/// told apart, storage settings come with a destination that stores files,
/// a notification with a way to read values back, and so on.
pub proof fn law_mirror_passes_iff_rules_hold(m: Mirror)
    ensures
        mirror_fault(m) is None <==> mirror_ok(m),
{
    if let Some(n) = m.notify {
        lemma_notify(m.name@, n);
    }
    lemma_present(storage_settings(m));
    lemma_present(destination_settings(m));
    let st = storage_settings(m);
    let ds = destination_settings(m);
    assert(st[0].1 == m.format is Some && st[1].1 == m.compression is Some && st[2].1
        == m.compaction is Some && st[3].1 == m.flush is Some && st[4].1 == m.http_access is Some);
    assert(ds[0].1 == m.format is Some && ds[1].1 == m.compression is Some && ds[2].1
        == m.keys is Some && ds[3].1 == m.values is Some && ds[4].1 == m.compaction is Some
        && ds[5].1 == m.flush is Some && ds[6].1 == m.timestamp_mode is Some && ds[7].1
        == m.http_access is Some);
    lemma_names(m, 0);
    assert(names_fault(m, 0) is None <==> names_ok(m)) by {
        if names_fault(m, 0) is None {
            assert forall|i: int, j: int| 0 <= j < i < m.destinations@.len() implies #[trigger]
                called(m.destinations@[j], m.name@) != #[trigger] called(
                m.destinations@[i],
                m.name@,
            ) by {
                let d = m.destinations@[i];
                assert(!name_taken(m, i));
            }
        }
        if names_ok(m) {
            assert forall|k: int| 0 <= k < m.destinations@.len() implies (m.destinations@.len() > 1
                ==> given_name(#[trigger] m.destinations@[k]) is Some) && !name_taken(m, k) by {
                if name_taken(m, k) {
                    let j = choose|j: int|
                        0 <= j < k && #[trigger] called(m.destinations@[j], m.name@) == called(
                            m.destinations@[k],
                            m.name@,
                        );
                    assert(called(m.destinations@[j], m.name@) != called(
                        m.destinations@[k],
                        m.name@,
                    ));
                }
            }
        }
    }
}

/// A configuration passes exactly when every mirror does, no two mirrors
/// share a name and no two are the main one.
pub proof fn law_config_passes_iff_mirrors_do(mirrors: Seq<Mirror>)
    ensures
        mirrors_fault(mirrors, 0) is None <==> {
            &&& forall|i: int| 0 <= i < mirrors.len() ==> mirror_ok(#[trigger] mirrors[i])
            &&& forall|i: int, j: int|
                0 <= j < i < mirrors.len() ==> mirrors[j].name@ != mirrors[i].name@
            &&& forall|i: int, j: int|
                0 <= j < i < mirrors.len() ==> !(mirrors[j].opts_into_main()
                    && mirrors[i].opts_into_main())
        },
{
    lemma_mirrors(mirrors, 0);
    assert forall|i: int| 0 <= i < mirrors.len() implies (mirror_fault(#[trigger] mirrors[i]) is None
        <==> mirror_ok(mirrors[i])) by {
        law_mirror_passes_iff_rules_hold(mirrors[i]);
    }
}

proof fn lemma_mirrors(mirrors: Seq<Mirror>, i: nat)
    ensures
        mirrors_fault(mirrors, i) is None <==> {
            &&& forall|k: int| i <= k < mirrors.len() ==> mirror_fault(#[trigger] mirrors[k]) is None
            &&& forall|k: int, j: int|
                0 <= j < k && i <= k < mirrors.len() ==> mirrors[j].name@ != mirrors[k].name@
            &&& forall|k: int, j: int|
                0 <= j < k && i <= k < mirrors.len() ==> !(mirrors[j].opts_into_main()
                    && mirrors[k].opts_into_main())
        },
    decreases mirrors.len() - i,
{
    if i < mirrors.len() {
        lemma_mirrors(mirrors, i + 1);
    }
}

/// A mirror that notifies and has destinations can be read over HTTP, and
/// one that can be read over HTTP stores its records somewhere durable
/// under keys that are text.
pub proof fn law_readable_mirrors_are_durable(m: Mirror)
    requires
        mirror_fault(m) is None,
        m.destinations@.len() > 0,
    ensures
        m.notify is Some ==> m.http_access is Some,
        m.http_access is Some ==> has_blob(m) && m.flush is Some && key_kind(m)
            != ColumnType::Bytes,
{
    law_mirror_passes_iff_rules_hold(m);
}

} // verus!
