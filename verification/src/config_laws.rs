//! What a configuration must be, and what its settings mean, spelled out.
use vstd::prelude::*;

use crate::config::{
    called, clock_fields, given_name, on_the_clock, split_on, AtUtcError, ColumnType, Destination,
    DestinationFormat, LoadError, Mirror, Notify,
};
use crate::envsubst::find_char;
use crate::supervisor::{daily_fault, ParamsError};
use crate::text::{debug_quoted, dec, parse_unsigned};
use crate::url::url_parts;
use crate::validate::{
    encoding_fault, law_mirror_passes_iff_rules_hold, limits_fault, mirror_fault, mirrors_fault,
    reports, target_fault,
};

verus! {

// ---- names of destinations ------------------------------------------------------

/// A destination is called by its own name, whatever its type, and by that
/// of its mirror where it has none.
pub proof fn law_names_of_destinations(d: Destination, mirror: Seq<char>)
    ensures
        d matches Destination::Kafka(k) ==> {
            &&& k.name matches Some(n) ==> given_name(d) == Some(n@) && called(d, mirror) == n@
            &&& k.name is None ==> given_name(d) is None && called(d, mirror) == mirror
        },
        d matches Destination::Filesystem(f) ==> {
            &&& f.name matches Some(n) ==> given_name(d) == Some(n@) && called(d, mirror) == n@
            &&& f.name is None ==> given_name(d) is None && called(d, mirror) == mirror
        },
        d matches Destination::S3(s) ==> {
            &&& s.name matches Some(n) ==> given_name(d) == Some(n@) && called(d, mirror) == n@
            &&& s.name is None ==> given_name(d) is None && called(d, mirror) == mirror
        },
{
}

// ---- rules ----------------------------------------------------------------------

/// Whether the URL is one of HTTP or HTTPS with a host.
pub open spec fn is_web_address(url: Seq<char>) -> bool {
    match url_parts(url) {
        Ok((scheme, Some(host))) => (scheme == "http"@ || scheme == "https"@) && host.len() > 0,
        _ => false,
    }
}

/// Whether a notification can be sent: it has targets, all of them web
/// addresses; at least one millisecond, one attempt and one millisecond
/// between attempts; and a debounce with limits of at least one exactly
/// where it is triggered as records are consumed.
pub open spec fn can_be_sent(n: Notify) -> bool {
    &&& n.targets@.len() >= 1
    &&& forall|i: int| 0 <= i < n.targets@.len() ==> is_web_address((#[trigger] n.targets@[i]).url@)
    &&& n.timeout_ms > 0
    &&& n.retry.max_attempts > 0
    &&& n.retry.backoff_ms > 0
    &&& n.trigger.on is SourceConsume ==> (n.trigger.debounce matches Some(d) && d.max_records > 0
        && d.max_time_ms > 0)
    &&& n.trigger.on is DestinationFlush ==> n.trigger.debounce is None
}

/// Whether some destination stores files: it is a directory or a bucket.
pub open spec fn stores_files(m: Mirror) -> bool {
    exists|i: int|
        0 <= i < m.destinations@.len() && (#[trigger] m.destinations@[i] is Filesystem
            || m.destinations@[i] is S3)
}

/// Whether some destination is a Kafka topic.
pub open spec fn goes_to_kafka(m: Mirror) -> bool {
    exists|i: int| 0 <= i < m.destinations@.len() && #[trigger] m.destinations@[i] is Kafka
}

/// A mirror without destinations passes exactly where it notifies as
/// records are consumed, can do so, and sets nothing that is about
/// destinations.
pub proof fn law_mirrors_without_destinations(m: Mirror)
    requires
        m.destinations@.len() == 0,
    ensures
        mirror_fault(m) is None <==> {
            &&& m.notify matches Some(n) && can_be_sent(n) && n.trigger.on is SourceConsume
            &&& m.format is None
            &&& m.compression is None
            &&& m.keys is None
            &&& m.values is None
            &&& m.compaction is None
            &&& m.flush is None
            &&& m.timestamp_mode is None
            &&& m.http_access is None
        },
{
    law_mirror_passes_iff_rules_hold(m);
    if let Some(n) = m.notify {
        lemma_sendable(n);
    }
}

proof fn lemma_sendable(n: Notify)
    ensures
        can_be_sent(n) <==> crate::validate::notify_ok(n),
{
    assert forall|u: Seq<char>| is_web_address(u) == #[trigger] crate::validate::target_ok(u) by {}
    if can_be_sent(n) {
        assert forall|i: int| 0 <= i < n.targets@.len() implies crate::validate::target_ok(
            (#[trigger] n.targets@[i]).url@,
        ) by {
            assert(is_web_address(n.targets@[i].url@));
        }
    }
    if crate::validate::notify_ok(n) {
        assert forall|i: int| 0 <= i < n.targets@.len() implies is_web_address(
            (#[trigger] n.targets@[i]).url@,
        ) by {
            assert(crate::validate::target_ok(n.targets@[i].url@));
        }
    }
}

/// A mirror with destinations passes exactly where: several destinations
/// each have a name of their own, and all are called differently; settings
/// of files come only with a destination that stores files, and such a one
/// comes with flush limits; a timestamp mode comes only with a Kafka
/// destination; newline-delimited JSON comes with keys and values of text
/// and without compaction; values can be read only under keys that are
/// text; and a notification that can be sent comes only with reading.
pub proof fn law_mirrors_with_destinations(m: Mirror)
    requires
        m.destinations@.len() > 0,
    ensures
        mirror_fault(m) is None <==> {
            &&& m.destinations@.len() > 1 ==> forall|i: int|
                0 <= i < m.destinations@.len() ==> given_name(#[trigger] m.destinations@[i]) is Some
            &&& forall|i: int, j: int|
                0 <= i < j < m.destinations@.len() ==> #[trigger] called(
                    m.destinations@[i],
                    m.name@,
                ) != #[trigger] called(m.destinations@[j], m.name@)
            &&& stores_files(m) || (m.format is None && m.compression is None && m.compaction is None
                && m.flush is None && m.http_access is None)
            &&& stores_files(m) ==> m.flush is Some
            &&& goes_to_kafka(m) || m.timestamp_mode is None
            &&& stores_files(m) && m.format == Some(DestinationFormat::Ndjson) ==> {
                &&& m.keys matches Some(k) ==> k.kind == ColumnType::Utf8
                &&& m.values matches Some(v) ==> v.kind == ColumnType::Utf8
                &&& m.compaction is None
            }
            &&& m.http_access is Some ==> (m.keys matches Some(k) ==> k.kind != ColumnType::Bytes)
            &&& m.notify matches Some(n) ==> m.http_access is Some && can_be_sent(n)
        },
{
    law_mirror_passes_iff_rules_hold(m);
    if let Some(n) = m.notify {
        lemma_sendable(n);
    }
    assert(stores_files(m) == crate::validate::has_blob(m)) by {
        if stores_files(m) {
            let i = choose|i: int|
                0 <= i < m.destinations@.len() && (#[trigger] m.destinations@[i] is Filesystem
                    || m.destinations@[i] is S3);
            assert(!(m.destinations@[i] is Kafka));
        }
        if crate::validate::has_blob(m) {
            let i = choose|i: int|
                0 <= i < m.destinations@.len() && !(#[trigger] m.destinations@[i] is Kafka);
            assert(m.destinations@[i] is Filesystem || m.destinations@[i] is S3);
        }
    }
    assert(goes_to_kafka(m) == crate::validate::has_kafka(m));
}

/// Whether the fault names the mirror.
pub open spec fn names_mirror(f: Seq<char>, m: Mirror) -> bool {
    let p = "mirror "@ + debug_quoted(m.name@) + ": "@;
    f.len() >= p.len() && f.take(p.len() as int) == p
}

proof fn lemma_says(m: Mirror)
    ensures
        forall|what: Seq<char>| names_mirror(#[trigger] crate::validate::says(m.name@, what), m),
{
    let p = "mirror "@ + debug_quoted(m.name@) + ": "@;
    assert forall|what: Seq<char>| names_mirror(
        #[trigger] crate::validate::says(m.name@, what),
        m,
    ) by {
        let f = crate::validate::says(m.name@, what);
        assert(f =~= p + what);
        assert(f.take(p.len() as int) =~= p);
    }
}

proof fn lemma_names_fault_names(m: Mirror, i: nat)
    ensures
        crate::validate::names_fault(m, i) matches Some(f) ==> names_mirror(f, m),
    decreases m.destinations@.len() - i,
{
    lemma_says(m);
    if i < m.destinations@.len() {
        lemma_names_fault_names(m, i + 1);
    }
}

proof fn lemma_targets_fault_names(m: Mirror, n: Notify, i: nat)
    ensures
        crate::validate::targets_fault(m.name@, n, i) matches Some(f) ==> names_mirror(f, m),
    decreases n.targets@.len() - i,
{
    lemma_says(m);
    if i < n.targets@.len() {
        lemma_targets_fault_names(m, n, i + 1);
    }
}

/// Every fault of a mirror is told under the mirror's name.
pub proof fn law_faults_name_their_mirror(m: Mirror)
    ensures
        mirror_fault(m) matches Some(f) ==> names_mirror(f, m),
{
    lemma_says(m);
    lemma_names_fault_names(m, 0);
    if let Some(n) = m.notify {
        lemma_targets_fault_names(m, n, 0);
    }
}

/// What is wrong with a target is told by its place: that its URL is none,
/// that it is neither of HTTP nor of HTTPS, or that it has no host.
pub proof fn law_faults_of_targets(
    mirror: Seq<char>,
    i: nat,
    scheme: Seq<char>,
    host: Option<Seq<char>>,
    reason: Seq<char>,
)
    ensures
        ({
            let at = "mirror "@ + debug_quoted(mirror) + ": "@ + ("notify.targets["@ + dec(i)
                + "].url"@);
            let web = scheme == "http"@ || scheme == "https"@;
            &&& target_fault(mirror, i, Err(reason)) == Some(
                at + (" is not a valid URL: "@ + reason),
            )
            &&& !web ==> target_fault(mirror, i, Ok((scheme, host))) == Some(
                at + (" must use scheme http or https, got "@ + debug_quoted(scheme)),
            )
            &&& web && (host matches Some(h) && h.len() > 0) ==> target_fault(
                mirror,
                i,
                Ok((scheme, host)),
            ) is None
            &&& web && !(host matches Some(h) && h.len() > 0) ==> target_fault(
                mirror,
                i,
                Ok((scheme, host)),
            ) == Some(at + " has no host"@)
        }),
{
    let head = "mirror "@ + debug_quoted(mirror) + ": "@;
    let target = "notify.targets["@ + dec(i) + "].url"@;
    let at = head + target;
    assert(head + (target + " is not a valid URL: "@ + reason) =~= at + (" is not a valid URL: "@
        + reason));
    assert(head + (target + " must use scheme http or https, got "@ + debug_quoted(scheme)) =~= at
        + (" must use scheme http or https, got "@ + debug_quoted(scheme)));
    assert(head + (target + " has no host"@) =~= at + " has no host"@);
}

/// A configuration is at fault exactly where a mirror is, two mirrors share
/// a name, or two are the main one. The first of these counts: a fault of
/// earlier mirrors is not covered up by later ones.
pub proof fn law_first_fault_counts(ms: Seq<Mirror>, more: Seq<Mirror>)
    requires
        mirrors_fault(ms, 0) is Some,
    ensures
        mirrors_fault(ms + more, 0) == mirrors_fault(ms, 0),
{
    lemma_fault_stays(ms, more, 0);
}

proof fn lemma_fault_stays(ms: Seq<Mirror>, more: Seq<Mirror>, i: nat)
    requires
        mirrors_fault(ms, i) is Some,
    ensures
        mirrors_fault(ms + more, i) == mirrors_fault(ms, i),
    decreases ms.len() - i,
{
    let all = ms + more;
    if i < ms.len() {
        let k = i as int;
        assert(all[k] == ms[k]);
        assert forall|j: int| 0 <= j < k implies #[trigger] all[j] == ms[j] by {}
        if exists|j: int| 0 <= j < k && (#[trigger] ms[j]).name@ == ms[k].name@ {
            let j = choose|j: int| 0 <= j < k && (#[trigger] ms[j]).name@ == ms[k].name@;
            assert(all[j].name@ == all[k].name@);
        } else {
            assert(!(exists|j: int| 0 <= j < k && (#[trigger] all[j]).name@ == all[k].name@)) by {
                if exists|j: int| 0 <= j < k && (#[trigger] all[j]).name@ == all[k].name@ {
                    let j = choose|j: int| 0 <= j < k && (#[trigger] all[j]).name@ == all[k].name@;
                    assert(ms[j].name@ == ms[k].name@);
                }
            }
            assert(crate::validate::main_fault(all, k) == crate::validate::main_fault(ms, k)) by {
                if exists|j: int| 0 <= j < k && (#[trigger] ms[j]).opts_into_main() {
                    let j = choose|j: int| 0 <= j < k && (#[trigger] ms[j]).opts_into_main();
                    assert(all[j].opts_into_main());
                }
                if exists|j: int| 0 <= j < k && (#[trigger] all[j]).opts_into_main() {
                    let j = choose|j: int| 0 <= j < k && (#[trigger] all[j]).opts_into_main();
                    assert(ms[j].opts_into_main());
                }
            }
            if mirror_fault(ms[k]) is None && crate::validate::main_fault(ms, k) is None {
                lemma_fault_stays(ms, more, i + 1);
            }
        }
    }
}

/// The main mirror is the one that asks for it: read access alone does not
/// make a mirror the main one.
pub proof fn law_who_is_the_main_mirror(m: Mirror)
    ensures
        m.http_access is None ==> !m.opts_into_main(),
        m.http_access matches Some(h) ==> (m.opts_into_main() <==> h.api is CacheV1Main),
        m.http_access matches Some(h) ==> (h.api is CacheV1 ==> !m.opts_into_main()),
{
}

// ---- times of day ----------------------------------------------------------------

proof fn lemma_split_first(a: Seq<char>, rest: Seq<char>)
    requires
        !a.contains(':'),
    ensures
        split_on(a, ':') == seq![a],
        split_on(a + seq![':'] + rest, ':') == seq![a] + split_on(rest, ':'),
{
    lemma_find_none(a);
    let s = a + seq![':'] + rest;
    lemma_find_at(a, rest);
    assert(s.take(a.len() as int) =~= a);
    assert(s.skip(a.len() as int + 1) =~= rest);
}

proof fn lemma_find_none(a: Seq<char>)
    requires
        !a.contains(':'),
    ensures
        find_char(a, ':') == a.len(),
    decreases a.len(),
{
    if a.len() > 0 {
        assert(a.contains(a[0]));
        assert forall|c: char| a.skip(1).contains(c) implies a.contains(c) by {
            let i = a.skip(1).index_of(c);
            assert(a[i + 1] == c);
        }
        lemma_find_none(a.skip(1));
    }
}

proof fn lemma_find_at(a: Seq<char>, rest: Seq<char>)
    requires
        !a.contains(':'),
    ensures
        find_char(a + seq![':'] + rest, ':') == a.len(),
    decreases a.len(),
{
    let s = a + seq![':'] + rest;
    if a.len() > 0 {
        assert(a.contains(a[0]));
        assert(s[0] == a[0]);
        assert forall|c: char| a.skip(1).contains(c) implies a.contains(c) by {
            let i = a.skip(1).index_of(c);
            assert(a[i + 1] == c);
        }
        lemma_find_at(a.skip(1), rest);
        assert(s.skip(1) =~= a.skip(1) + seq![':'] + rest);
    } else {
        assert(s[0] == ':');
    }
}

/// A time of day is two or three numbers with colons between them: hours,
/// minutes and, if they are given, seconds. Anything else is none.
pub proof fn law_times_of_day(a: Seq<char>, b: Seq<char>, c: Seq<char>, rest: Seq<char>)
    requires
        !a.contains(':'),
        !b.contains(':'),
        !c.contains(':'),
    ensures
        ({
            let max = u32::MAX as nat;
            let x = parse_unsigned(a, max);
            let y = parse_unsigned(b, max);
            let z = parse_unsigned(c, max);
            let two = clock_fields(a + seq![':'] + b);
            let three = clock_fields(a + seq![':'] + (b + seq![':'] + c));
            &&& clock_fields(a) is None
            &&& x is Some && y is Some ==> two == Some((x->0, y->0, 0nat))
            &&& x is None || y is None ==> two is None
            &&& x is Some && y is Some && z is Some ==> three == Some((x->0, y->0, z->0))
            &&& x is None || y is None || z is None ==> three is None
            &&& clock_fields(a + seq![':'] + (b + seq![':'] + (c + seq![':'] + rest))) is None
        }),
{
    lemma_split_first(a, b);
    lemma_split_first(b, c);
    lemma_split_first(c, rest);
    let two = a + seq![':'] + b;
    assert(split_on(two, ':') =~= seq![a, b]);
    let bc = b + seq![':'] + c;
    lemma_split_first(a, bc);
    assert(split_on(bc, ':') =~= seq![b, c]);
    assert(split_on(a + seq![':'] + bc, ':') =~= seq![a, b, c]);
    let cr = c + seq![':'] + rest;
    let bcr = b + seq![':'] + cr;
    lemma_split_first(b, cr);
    lemma_split_first(a, bcr);
    lemma_split_some(rest);
    assert(split_on(a + seq![':'] + bcr, ':').len() >= 4);
}

proof fn lemma_split_some(s: Seq<char>)
    ensures
        split_on(s, ':').len() > 0,
{
}

/// Hours go up to 23, minutes and seconds to 59.
pub proof fn law_the_clock(h: nat, m: nat, s: nat)
    ensures
        on_the_clock((h, m, s)) <==> h < 24 && m < 60 && s < 60,
        on_the_clock((h, m, s)) ==> h * 3600 + m * 60 + s < 86400,
{
}

/// A check reports a fault in the words of the fault, and goes well where
/// there is none.
pub proof fn law_what_checks_report(r: Result<(), LoadError>, f: Seq<char>)
    ensures
        reports(r, None) <==> r is Ok,
        reports(r, Some(f)) <==> (r matches Err(LoadError::Validation(m)) && m@ == f),
{
}

/// Where the time of the daily flush cannot be read, the error says so
/// under the mirror's name: in its form, or in its range.
pub proof fn law_faults_of_daily_flushes(e: ParamsError, m: Mirror)
    requires
        daily_fault(e, m),
    ensures
        e matches ParamsError::Daily { mirror, cause } && mirror@ == m.name@ && {
            let at = m.flush->0.daily->0.at_utc@;
            &&& clock_fields(at) is None ==> (cause matches AtUtcError::Format(s) && s@ == at)
            &&& clock_fields(at) is Some ==> (cause matches AtUtcError::Range(s) && s@ == at)
        },
{
}

/// The words of what is wrong with the limits of a notification; the first
/// of these counts.
pub proof fn law_words_of_limit_faults(m: Mirror, n: Notify)
    ensures
        ({
            let p = "mirror "@ + debug_quoted(m.name@) + ": "@;
            let f = limits_fault(m.name@, n);
            let timed = n.timeout_ms >= 1;
            let tried = timed && n.retry.max_attempts >= 1;
            let limited = tried && n.retry.backoff_ms >= 1;
            let consumed = limited && n.trigger.on is SourceConsume;
            let flushed = limited && n.trigger.on is DestinationFlush;
            &&& !timed ==> f == Some(p + "`notify.timeout-ms` must be >= 1"@)
            &&& timed && !tried ==> f == Some(p + "`notify.retry.max-attempts` must be >= 1"@)
            &&& tried && !limited ==> f == Some(p + "`notify.retry.backoff-ms` must be >= 1"@)
            &&& consumed && n.trigger.debounce is None ==> f == Some(
                p + "`notify.trigger.debounce` is required when `trigger.on: source-consume`"@,
            )
            &&& consumed ==> (n.trigger.debounce matches Some(d) ==> {
                &&& d.max_records < 1 ==> f == Some(
                    p + "`notify.trigger.debounce.max-records` must be >= 1"@,
                )
                &&& d.max_records >= 1 && d.max_time_ms < 1 ==> f == Some(
                    p + "`notify.trigger.debounce.max-time-ms` must be >= 1"@,
                )
                &&& d.max_records >= 1 && d.max_time_ms >= 1 ==> f is None
            })
            &&& flushed ==> (f is None <==> n.trigger.debounce is None)
        }),
{
}

/// The words of what a mirror that stores files lacks, or cannot have
/// together; the first of these counts.
pub proof fn law_words_of_encoding_faults(m: Mirror)
    requires
        stores_files(m),
    ensures
        ({
            let p = "mirror "@ + debug_quoted(m.name@) + ": "@;
            let f = encoding_fault(m);
            let lines = m.format == Some(DestinationFormat::Ndjson);
            let typed = (m.keys matches Some(k) && k.kind != ColumnType::Utf8) || (
            m.values matches Some(v) && v.kind != ColumnType::Utf8);
            let kept = m.flush is Some && !(lines && (typed || m.compaction is Some));
            &&& m.flush is None ==> f == Some(
                p + "`flush` is required when any destination is filesystem/s3"@,
            )
            &&& m.flush is Some && lines && typed ==> f == Some(
                p
                    + "ndjson does not honour `keys`/`values` types; remove them or switch to `format: parquet`"@,
            )
            &&& m.flush is Some && lines && !typed && m.compaction is Some ==> f == Some(
                p + "`compaction` requires `format: parquet`"@,
            )
            &&& kept ==> (f is Some <==> m.http_access is Some && (m.keys matches Some(k) && k.kind
                == ColumnType::Bytes))
        }),
{
    let i = choose|i: int|
        0 <= i < m.destinations@.len() && (#[trigger] m.destinations@[i] is Filesystem
            || m.destinations@[i] is S3);
    assert(!(m.destinations@[i] is Kafka));
    assert(crate::validate::has_blob(m));
}

} // verus!
