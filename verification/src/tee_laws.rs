//! What a tee does with its sinks and its cache, in terms of the sinks'
//! heads and answers and of the records.
use vstd::prelude::*;
use vstd::utf8::{decode_utf8, valid_utf8};

use crate::assoc::unique_keys;
use crate::cache::{CacheBinding, CacheCall};
use crate::error::SinkError;
use crate::mirror::Sink;
use crate::read_laws::{holds_entry, holds_key, is_partition_of, law_newer_records_are_applied};
use crate::record::RecordView;
use crate::tee::{
    first_failure, is_least, moved_cursor, opens_as, outcome, raised_cursor, reporting, MinFlushCoordinator,
    TeeHeads, TeeSink,
};

verus! {

/// Every record that the tee is given goes into the bound cache, whatever
/// the sinks then say, with a value or without one. The cache stays bound
/// to its mirror, and without a cache there is none afterwards.
pub proof fn law_every_record_reaches_the_cache<K: Sink>(
    before: TeeSink<K>,
    after: TeeSink<K>,
    record: RecordView,
    r: Result<(), SinkError>,
)
    requires
        before.takes_record(&after, record, r),
        record.source_offset < u64::MAX,
    ensures
        before.cache is None ==> after.cache is None,
        before.cache matches Some(c) ==> {
            &&& after.cache is Some
            &&& after.cache->0.mirror_name@ == c.mirror_name@
            &&& after.cache->0.state@ == c.state@.after(
                CacheCall::Apply { name: c.mirror_name@, record },
            )
        },
{
    if after.cache is Some {
        assert(crate::tee::bound_cache(after.cache) is Some);
    }
}

/// So after a newer record with a text key the bound mirror shows the
/// record's value under it, or no such key where the record has no value,
/// and stands at the record's offset in its partition.
pub proof fn law_the_cache_shows_what_was_written<K: Sink>(
    before: TeeSink<K>,
    after: TeeSink<K>,
    record: RecordView,
    r: Result<(), SinkError>,
    c: CacheBinding,
    tp: (Seq<char>, u32),
)
    requires
        before.takes_record(&after, record, r),
        record.source_offset < u64::MAX,
        before.cache == Some(c),
        c.state@.mirrors.dom().contains(c.mirror_name@),
        unique_keys(c.state@.mirrors[c.mirror_name@].entries),
        is_partition_of(tp, record),
        c.state@.mirrors[c.mirror_name@].offsets.dom().contains(tp)
            ==> c.state@.mirrors[c.mirror_name@].offsets[tp] < record.source_offset,
        record.key matches Some(k) && valid_utf8(k),
    ensures
        after.cache is Some,
        ({
            let shown = after.cache->0.state@.mirrors[c.mirror_name@];
            &&& after.cache->0.state@.mirrors.dom().contains(c.mirror_name@)
            &&& record.value matches Some(v) ==> holds_entry(
                shown,
                decode_utf8(record.key->0),
                v,
            )
            &&& record.value is None ==> !holds_key(shown, decode_utf8(record.key->0))
            &&& shown.offsets.dom().contains(tp)
            &&& shown.offsets[tp] == record.source_offset
        }),
{
    law_every_record_reaches_the_cache(before, after, record, r);
    let key = decode_utf8(record.key->0);
    assert(key.push('x').len() == key.len() + 1);
    law_newer_records_are_applied(
        c.state@.mirrors[c.mirror_name@],
        record,
        c.state@.tolerance,
        tp,
        key.push('x'),
        seq![],
    );
}

/// The tee stands at the lowest of its heads, or at its resume cursor where
/// that is lower still.
pub proof fn law_the_tee_stands_at_its_laggard(t: TeeHeads, p: u64)
    requires
        t.stands_at(p),
    ensures
        forall|i: int| 0 <= i < t.heads.len() ==> p <= #[trigger] t.heads@[i],
        t.resume_cursor matches Some(c) ==> p <= c,
        t.resume_cursor == Some(p) || exists|i: int|
            0 <= i < t.heads.len() && #[trigger] t.heads@[i] == p,
{
    let m = choose|m: u64| #[trigger]
        is_least(m, t.heads@) && p == match t.resume_cursor {
            Some(c) => if c < m {
                c
            } else {
                m
            },
            None => m,
        };
    let i = t.heads@.index_of(m);
    assert(t.heads@[i] == m);
}

/// The resume cursor is there or not as before. A record moves it right
/// behind itself, and a source that starts later moves it there, but
/// neither moves it back.
pub proof fn law_the_resume_cursor_moves_forward(cursor: Option<u64>, offset: u64, low: u64)
    requires
        offset < u64::MAX,
    ensures
        cursor is None ==> moved_cursor(cursor, offset) is None && raised_cursor(cursor, low) is None,
        cursor matches Some(c) ==> {
            &&& moved_cursor(cursor, offset) is Some
            &&& c <= moved_cursor(cursor, offset)->0
            &&& offset < moved_cursor(cursor, offset)->0
            &&& moved_cursor(cursor, offset)->0 == c || moved_cursor(cursor, offset)->0 == offset + 1
            &&& raised_cursor(cursor, low) is Some
            &&& c <= raised_cursor(cursor, low)->0
            &&& low <= raised_cursor(cursor, low)->0
            &&& raised_cursor(cursor, low)->0 == c || raised_cursor(cursor, low)->0 == low
        },
{
}

/// A call on several sinks goes well exactly where every one does. Else the
/// first of those that fail is told, with its name, the call and its error.
pub proof fn law_the_first_failure_is_told(
    names: Seq<String>,
    stage: Seq<char>,
    results: Seq<(usize, Result<(), SinkError>)>,
    r: Result<(), SinkError>,
    k: int,
)
    requires
        outcome(names, stage, results, r),
        0 <= k <= results.len(),
        forall|i: int| 0 <= i < k ==> (#[trigger] results[i]).1 is Ok,
        k < results.len() ==> results[k].1 is Err,
    ensures
        r is Ok <==> k == results.len(),
        k < results.len() ==> (r matches Err(SinkError::Transport(m)) && m@ == "inner sink "@
            + names[results[k].0 as int]@ + stage + ": "@ + results[k].1->Err_0.text()),
{
    lemma_first_failure_is(results, k);
}

proof fn lemma_first_failure_is(results: Seq<(usize, Result<(), SinkError>)>, k: int)
    requires
        0 <= k <= results.len(),
        forall|i: int| 0 <= i < k ==> (#[trigger] results[i]).1 is Ok,
        k < results.len() ==> results[k].1 is Err,
    ensures
        first_failure(results) == k,
    decreases results.len(),
{
    if results.len() > 0 && k > 0 {
        assert(results[0].1 is Ok);
        let rest = results.skip(1);
        assert forall|i: int| 0 <= i < k - 1 implies (#[trigger] rest[i]).1 is Ok by {
            assert(rest[i] == results[i + 1]);
        }
        lemma_first_failure_is(rest, k - 1);
    }
}

/// Which sinks a record is handed to and where they stand then: those whose
/// head has not passed it, each exactly once, also after one that fails.
/// One that takes it stands right behind it; every other stays, and one
/// that was not handed the record is not touched.
pub proof fn law_who_is_handed_a_record<K: Sink>(
    before: TeeSink<K>,
    after: TeeSink<K>,
    record: RecordView,
    r: Result<(), SinkError>,
    i: int,
)
    requires
        before.takes_record(&after, record, r),
        before.wf(),
        record.source_offset < u64::MAX,
        0 <= i < before.inners@.len(),
    ensures
        after.heads.names == before.heads.names,
        before.heads.heads@[i] > record.source_offset ==> after.inners@[i] == before.inners@[i]
            && after.heads.heads@[i] == before.heads.heads@[i],
        before.heads.heads@[i] <= record.source_offset ==> {
            ||| before.inners@[i].takes_record(&after.inners@[i], record, Ok(()))
                && after.heads.heads@[i] == record.source_offset + 1
            ||| r is Err && after.heads.heads@[i] == before.heads.heads@[i] && exists|e: SinkError|
                #[trigger]
                before.inners@[i].takes_record(&after.inners@[i], record, Err(e))
        },
        r is Ok && before.heads.resume_cursor is Some ==> after.heads.resume_cursor is Some
            && record.source_offset < after.heads.resume_cursor->0,
        r is Err ==> after.heads.resume_cursor == before.heads.resume_cursor,
        before.heads.resume_cursor is None ==> after.heads.resume_cursor is None,
{
    let offset = record.source_offset;
    let results = choose|results: Seq<(usize, Result<(), SinkError>)>| #[trigger]
        crate::tee::wrote_all(
            before.inners@,
            after.inners@,
            before.heads.heads@,
            record,
            results,
        ) && outcome(before.heads.names@, ""@, results, r) && before.heads.settled(
            offset,
            results,
            &after.heads,
        );
    if before.heads.heads@[i] > offset {
        if crate::tee::succeeded(results, i) {
            let k = choose|k: int|
                0 <= k < results.len() && (#[trigger] results[k]).0 == i && results[k].1 is Ok;
            assert(before.heads.heads@[results[k].0 as int] <= offset);
        }
        assert(after.inners@[i] == before.inners@[i]);
    } else {
        let k = choose|k: int| 0 <= k < results.len() && (#[trigger] results[k]).0 == i;
        assert(before.inners@[results[k].0 as int].takes_record(
            &after.inners@[results[k].0 as int],
            record,
            results[k].1,
        ));
        if results[k].1 is Ok {
            assert(crate::tee::succeeded(results, i));
            assert(results[k].1->Ok_0 == ());
        } else {
            if crate::tee::succeeded(results, i) {
                let l = choose|l: int|
                    0 <= l < results.len() && (#[trigger] results[l]).0 == i && results[l].1 is Ok;
                assert(l == k);
            }
            lemma_some_failure(results, k);
            assert(r is Err);
            let e = results[k].1->Err_0;
            assert(before.inners@[i].takes_record(&after.inners@[i], record, Err(e)));
        }
    }
}

proof fn lemma_some_failure(results: Seq<(usize, Result<(), SinkError>)>, k: int)
    requires
        0 <= k < results.len(),
        results[k].1 is Err,
    ensures
        0 <= first_failure(results) <= k,
    decreases results.len(),
{
    if results[0].1 is Ok {
        assert(results.skip(1)[k - 1] == results[k]);
        lemma_some_failure(results.skip(1), k - 1);
    }
}

/// A tee that is asked for its position moves each head up to what its
/// sink says, never back, and stands then at the lowest. A sink that cannot
/// say is the error.
pub proof fn law_asking_for_the_position<K: Sink>(
    before: TeeSink<K>,
    after: TeeSink<K>,
    r: Result<u64, SinkError>,
    i: int,
)
    requires
        before.reports_position(&after, r),
        before.wf(),
        0 <= i < before.inners@.len(),
    ensures
        before.heads.heads@[i] <= after.heads.heads@[i],
        r is Ok ==> exists|at: u64| #[trigger]
            before.inners@[i].reports_position(&after.inners@[i], Ok(at)) && at
                <= after.heads.heads@[i] && (after.heads.heads@[i] == at || after.heads.heads@[i]
                == before.heads.heads@[i]),
        r matches Ok(p) ==> p <= after.heads.heads@[i],
        after.heads.resume_cursor == before.heads.resume_cursor,
        after.cache == before.cache,
{
    let answers = choose|answers: Seq<Result<u64, SinkError>>| #[trigger]
        crate::tee::position_answer(before, after, answers, r);
    assert(after.heads.heads@[i] >= before.heads.heads@[i]);
    if let Ok(p) = r {
        law_the_tee_stands_at_its_laggard(after.heads, p);
        assert(after.heads.heads.len() == before.heads.heads.len());
        assert(p <= after.heads.heads@[i]);
        assert(answers[i] is Ok) by {
            if i < answers.len() - 1 {
                assert(answers[i] is Ok);
            }
        }
        assert(before.inners@[i].reports_position(&after.inners@[i], answers[i]));
        let at = answers[i]->Ok_0;
        assert(before.inners@[i].reports_position(&after.inners@[i], Ok(at)));
    }
}

/// Once every sink has moved up to where the source starts, every head is
/// there, and so is the tee. Where one cannot, nothing of the tee moves.
pub proof fn law_following_a_trimmed_source<K: Sink>(
    before: TeeSink<K>,
    after: TeeSink<K>,
    low: u64,
    r: Result<(), SinkError>,
    i: int,
)
    requires
        before.aligns_to(&after, low, r),
        before.wf(),
        0 <= i < before.inners@.len(),
    ensures
        r is Ok ==> after.heads.heads@[i] == low && before.inners@[i].aligns_to(
            &after.inners@[i],
            low,
            Ok(()),
        ),
        r is Ok ==> after.heads.stands_at(low),
        r is Err ==> after.heads == before.heads,
        after.cache == before.cache,
{
    let results = choose|results: Seq<(usize, Result<(), SinkError>)>| #[trigger]
        crate::tee::aligned_all(before.inners@, after.inners@, low, results) && outcome(
            before.heads.names@,
            " align"@,
            results,
            r,
        );
    assert(results[i].0 == i);
    if r is Ok {
        if results[i].1 is Err {
            lemma_some_failure(results, i);
        }
        assert(results[i].1->Ok_0 == ());
    }
}

/// A tee flushes every sink, also after one that fails, and goes well only
/// where each does. Heads and cache stay.
pub proof fn law_flushing_every_sink<K: Sink>(
    before: TeeSink<K>,
    after: TeeSink<K>,
    r: Result<(), SinkError>,
    i: int,
)
    requires
        before.flushes(&after, r),
        0 <= i < before.inners@.len(),
    ensures
        before.inners@[i].flushes(&after.inners@[i], Ok(())) || exists|e: SinkError| #[trigger]
            before.inners@[i].flushes(&after.inners@[i], Err(e)),
        r is Ok ==> before.inners@[i].flushes(&after.inners@[i], Ok(())),
        after.heads == before.heads,
        after.cache == before.cache,
{
    let results = choose|results: Seq<(usize, Result<(), SinkError>)>| #[trigger]
        crate::tee::flushed_all(before.inners@, after.inners@, results) && outcome(
            before.heads.names@,
            " flush"@,
            results,
            r,
        );
    assert(results[i].0 == i);
    assert(before.inners@[i].flushes(&after.inners@[i], results[i].1));
    if results[i].1 is Err {
        lemma_some_failure(results, i);
        let e = results[i].1->Err_0;
        assert(before.inners@[i].flushes(&after.inners@[i], Err(e)));
    } else {
        assert(results[i].1->Ok_0 == ());
    }
}

/// Flush reports come from the sinks that give them, each listed once, in
/// order.
pub proof fn law_who_reports_flushes(supports: Seq<bool>, i: int)
    requires
        supports.len() <= usize::MAX,
    ensures
        forall|k: int| 0 <= k < reporting(supports).len() ==> (#[trigger] reporting(supports)[k])
            < supports.len(),
        forall|k: int| 0 <= k < reporting(supports).len() ==> supports[(
        #[trigger] reporting(supports)[k]) as int],
        forall|k: int, l: int|
            0 <= k < l < reporting(supports).len() ==> reporting(supports)[k] < reporting(
                supports,
            )[l],
        0 <= i < supports.len() && supports[i] ==> exists|k: int|
            0 <= k < reporting(supports).len() && #[trigger] reporting(supports)[k] == i,
    decreases supports.len(),
{
    if supports.len() > 0 {
        let init = supports.drop_last();
        law_who_reports_flushes(init, i);
        let who = reporting(supports);
        let prior = reporting(init);
        assert forall|k: int| 0 <= k < who.len() implies (#[trigger] who[k]) < supports.len()
            && supports[who[k] as int] by {
            if k < prior.len() {
                assert(who[k] == prior[k]);
                assert(init[prior[k] as int]);
            }
        }
        assert forall|k: int, l: int| 0 <= k < l < who.len() implies who[k] < who[l] by {
            if l < prior.len() {
                assert(prior[k] < prior[l]);
            } else {
                assert(who[k] == prior[k]);
                assert(prior[k] < init.len());
            }
        }
        if 0 <= i < supports.len() && supports[i] {
            if i < init.len() {
                assert(init[i]);
                let k = choose|k: int| 0 <= k < prior.len() && #[trigger] prior[k] == i;
                assert(who[k] == i);
            } else {
                assert(who[prior.len() as int] == i);
            }
        }
    }
}

/// A range is reported exactly where every sink has then flushed beyond
/// what was reported before. It starts where that ended, or at zero, and
/// ends where the slowest sink stands. What a sink has flushed never goes
/// back, and a report of one sink changes no other.
pub proof fn law_when_a_flush_is_reported(
    a: MinFlushCoordinator,
    sink: int,
    to: u64,
    fire: Option<(u64, u64)>,
    b: MinFlushCoordinator,
)
    requires
        a.wf(),
        0 <= sink < a.per_sink_flushed_to.len(),
        a.noted(sink, to, fire, &b),
    ensures
        ({
            let before = match a.last_fired_to {
                Some(x) => x,
                None => 0,
            };
            &&& b.per_sink_flushed_to.len() == a.per_sink_flushed_to.len()
            &&& forall|i: int|
                0 <= i < a.per_sink_flushed_to.len() && i != sink
                    ==> #[trigger] b.per_sink_flushed_to@[i] == a.per_sink_flushed_to@[i]
            &&& a.per_sink_flushed_to@[sink] <= b.per_sink_flushed_to@[sink]
            &&& to <= b.per_sink_flushed_to@[sink]
            &&& b.per_sink_flushed_to@[sink] == to || b.per_sink_flushed_to@[sink]
                == a.per_sink_flushed_to@[sink]
            &&& fire is Some <==> forall|i: int|
                0 <= i < b.per_sink_flushed_to.len() ==> before
                    < #[trigger] b.per_sink_flushed_to@[i]
            &&& fire matches Some((from, upto)) ==> {
                &&& from == before
                &&& forall|i: int|
                    0 <= i < b.per_sink_flushed_to.len() ==> upto
                        <= #[trigger] b.per_sink_flushed_to@[i]
                &&& exists|i: int|
                    0 <= i < b.per_sink_flushed_to.len() && #[trigger] b.per_sink_flushed_to@[i]
                        == upto
                &&& b.last_fired_to == Some(upto)
            }
            &&& fire is None ==> b.last_fired_to == a.last_fired_to
        }),
{
    match fire {
        Some((from, upto)) => {
            let i = b.per_sink_flushed_to@.index_of(upto);
            assert(b.per_sink_flushed_to@[i] == upto);
        },
        None => {
            let m = choose|m: u64| #[trigger]
                is_least(m, b.per_sink_flushed_to@) && m <= a.last_fired_to.unwrap_or(0);
            let i = b.per_sink_flushed_to@.index_of(m);
            assert(b.per_sink_flushed_to@[i] == m);
        },
    }
}

/// Where a tee cannot say its position, one of its sinks could not, and
/// that is the error.
pub proof fn law_positions_that_fail<K: Sink>(
    before: TeeSink<K>,
    after: TeeSink<K>,
    e: SinkError,
)
    requires
        before.reports_position(&after, Err(e)),
    ensures
        exists|k: int|
            0 <= k < before.inners@.len() && (#[trigger] before.inners@[k]).reports_position(
                &after.inners@[k],
                Err(e),
            ),
{
    let answers = choose|answers: Seq<Result<u64, SinkError>>| #[trigger]
        crate::tee::position_answer(before, after, answers, Err(e));
    let k = answers.len() - 1;
    assert(before.inners@[k].reports_position(&after.inners@[k], answers[k]));
}

/// A tee opens over at least one sink, where every sink says where it
/// stands, and its heads are what they say. Else the first that cannot say
/// is the error.
pub proof fn law_opening_a_tee<K: Sink>(
    before: Seq<K>,
    after: Seq<K>,
    answers: Seq<Result<u64, SinkError>>,
    r: Result<TeeSink<K>, SinkError>,
    i: int,
)
    requires
        opens_as(before, after, answers, r),
    ensures
        before.len() == 0 ==> r is Err,
        r matches Ok(t) ==> {
            &&& t.inners@ == after
            &&& t.heads.heads@.len() == before.len()
            &&& 0 <= i < before.len() ==> before[i].reports_position(
                &after[i],
                Ok(t.heads.heads@[i]),
            )
        },
        r matches Err(e) ==> before.len() > 0 ==> exists|k: int|
            0 <= k < before.len() && (#[trigger] before[k]).reports_position(&after[k], Err(e)),
{
    match r {
        Ok(t) => {
            if 0 <= i < before.len() {
                assert(answers[i] == Ok::<u64, SinkError>(t.heads.heads@[i]));
                assert(before[i].reports_position(&after[i], answers[i]));
            }
        },
        Err(e) => {
            if before.len() > 0 {
                let k = answers.len() - 1;
                assert(before[k].reports_position(&after[k], answers[k]));
            }
        },
    }
}

/// A tee tolerates a compacted source exactly where every sink does.
pub proof fn law_a_tee_tolerates_what_all_do<K: Sink>(t: TeeSink<K>, i: int)
    requires
        0 <= i < t.inners@.len(),
    ensures
        t.tolerates_gaps() ==> t.inners@[i].tolerates_gaps(),
        !t.inners@[i].tolerates_gaps() ==> !t.tolerates_gaps(),
        (forall|k: int| 0 <= k < t.inners@.len() ==> (#[trigger] t.inners@[k]).tolerates_gaps())
            ==> t.tolerates_gaps(),
{
}

/// A record at the largest offset has no next one: it is refused, and
/// nothing changes.
pub proof fn law_the_largest_offset_is_refused<K: Sink>(
    before: TeeSink<K>,
    after: TeeSink<K>,
    record: RecordView,
    r: Result<(), SinkError>,
)
    requires
        before.takes_record(&after, record, r),
        record.source_offset == u64::MAX,
    ensures
        r matches Err(SinkError::Transport(m)) && m@ == "source offset overflowed u64"@,
        after == before,
{
}

/// Asking a tee leaves its names, and asking whether it tolerates a
/// compacted source leaves its heads and its cache as well.
pub proof fn law_asking_a_tee_keeps_it<K: Sink>(
    before: TeeSink<K>,
    after: TeeSink<K>,
    r: Result<u64, SinkError>,
)
    ensures
        before.tells_tolerance(&after) ==> after.heads == before.heads && after.cache
            == before.cache && after.inners@.len() == before.inners@.len(),
        before.reports_position(&after, r) ==> after.heads.names == before.heads.names
            && after.cache == before.cache,
{
}

} // verus!
