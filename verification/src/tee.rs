//! One source fanned out to several sinks, each of which keeps its own
//! position.
//!
//! Sinks that buffer and sinks that commit every record stand at
//! different offsets at any moment. The tee keeps a head per sink, reports
//! the lowest one, and presents a record only to the sinks whose head has
//! not passed it. So the source resumes from the laggard and the others
//! see nothing twice.
use vstd::prelude::*;
use vstd::string::*;

use crate::cache::{CacheBinding, CacheCall, CacheView};
use crate::error::SinkError;
use crate::mirror::Sink;
use crate::record::{Record, RecordView};

verus! {

/// Whether `m` is the least of `s`.
pub open spec fn is_least(m: u64, s: Seq<u64>) -> bool {
    s.contains(m) && forall|i: int| 0 <= i < s.len() ==> m <= #[trigger] s[i]
}

/// The place of the first failure, or the number of results.
pub open spec fn first_failure(results: Seq<(usize, Result<(), SinkError>)>) -> int
    decreases results.len(),
{
    if results.len() == 0 {
        0
    } else if results[0].1 is Err {
        0
    } else {
        1 + first_failure(results.skip(1))
    }
}

/// What went wrong in the sink named `name`. `stage` says when.
pub open spec fn sink_failure(name: Seq<char>, stage: Seq<char>, e: SinkError) -> Seq<char> {
    "inner sink "@ + name + stage + ": "@ + e.text()
}

/// The outcome of a call on several sinks: the first failure counts.
pub open spec fn outcome(
    names: Seq<String>,
    stage: Seq<char>,
    results: Seq<(usize, Result<(), SinkError>)>,
    r: Result<(), SinkError>,
) -> bool {
    let k = first_failure(results);
    if k == results.len() {
        r is Ok
    } else {
        r matches Err(SinkError::Transport(m)) && m@ == sink_failure(
            names[results[k].0 as int]@,
            stage,
            results[k].1->Err_0,
        )
    }
}

/// Whether some result says that sink `i` succeeded.
pub open spec fn succeeded(results: Seq<(usize, Result<(), SinkError>)>, i: int) -> bool {
    exists|k: int| 0 <= k < results.len() && (#[trigger] results[k]).0 == i && results[k].1 is Ok
}

/// The names and positions of the sinks behind a tee.
#[derive(Debug)]
pub struct TeeHeads {
    pub names: Vec<String>,
    /// The offset that each sink takes next.
    pub heads: Vec<u64>,
    /// Where the source is to resume for notification, if that is below
    /// the heads. It follows every write.
    pub resume_cursor: Option<u64>,
}

/// The resume cursor after a write at `offset`.
pub open spec fn moved_cursor(cursor: Option<u64>, offset: u64) -> Option<u64> {
    match cursor {
        Some(c) => Some(
            if c > offset {
                c
            } else {
                (offset + 1) as u64
            },
        ),
        None => None,
    }
}

/// The resume cursor once the source starts at `low_watermark`.
pub open spec fn raised_cursor(cursor: Option<u64>, low_watermark: u64) -> Option<u64> {
    match cursor {
        Some(c) => Some(
            if c < low_watermark {
                low_watermark
            } else {
                c
            },
        ),
        None => None,
    }
}

impl TeeHeads {
    /// Every sink has a name and a head, and there is at least one.
    pub open spec fn wf(&self) -> bool {
        self.names.len() == self.heads.len() && self.heads.len() > 0
    }

    /// Whether the tee reports `p` as its position.
    pub open spec fn stands_at(&self, p: u64) -> bool {
        exists|m: u64| #[trigger]
            is_least(m, self.heads@) && p == match self.resume_cursor {
                Some(c) => if c < m {
                    c
                } else {
                    m
                },
                None => m,
            }
    }

    /// The heads of newly opened sinks. There must be at least one sink.
    pub fn open(names: Vec<String>, heads: Vec<u64>) -> (r: Result<Self, SinkError>)
        requires
            names.len() == heads.len(),
        ensures
            r is Ok <==> heads.len() > 0,
            r matches Ok(t) ==> t == (TeeHeads { names, heads, resume_cursor: None }) && t.wf(),
            r matches Err(e) ==> (e matches SinkError::Transport(m) && m@
                == "TeeSink requires at least one inner sink"@),
    {
        if heads.len() == 0 {
            return Err(SinkError::Transport("TeeSink requires at least one inner sink".to_owned()));
        }
        Ok(TeeHeads { names, heads, resume_cursor: None })
    }

    /// Have the source resume at `floor` if that is below every head.
    pub fn set_resume_floor(&mut self, floor: u64)
        ensures
            *final(self) == (TeeHeads { resume_cursor: Some(floor), ..*old(self) }),
    {
        self.resume_cursor = Some(floor);
    }

    /// Take in the position that sink `i` reports. Heads only advance.
    pub fn refresh(&mut self, i: usize, head: u64)
        requires
            old(self).wf(),
            i < old(self).heads.len(),
        ensures
            final(self).wf(),
            final(self).names == old(self).names,
            final(self).resume_cursor == old(self).resume_cursor,
            final(self).heads@ == old(self).heads@.update(
                i as int,
                if head > old(self).heads@[i as int] {
                    head
                } else {
                    old(self).heads@[i as int]
                },
            ),
    {
        if head > self.heads[i] {
            self.heads.set(i, head);
        } else {
            assert(self.heads@ =~= old(self).heads@.update(i as int, old(self).heads@[i as int]));
        }
    }

    /// The lowest head, or the resume cursor where that is lower.
    pub fn position(&self) -> (p: u64)
        requires
            self.wf(),
        ensures
            self.stands_at(p),
    {
        let m = least(&self.heads);
        match self.resume_cursor {
            Some(c) => if c < m {
                c
            } else {
                m
            },
            None => m,
        }
    }

    /// The sinks that take a record at `offset`: those that have not
    /// passed it.
    pub fn targets(&self, offset: u64) -> (t: Vec<usize>)
        ensures
            forall|k: int| 0 <= k < t.len() ==> (#[trigger] t[k]) < self.heads.len(),
            forall|k: int, l: int| 0 <= k < l < t.len() ==> t[k] < t[l],
            forall|i: usize|
                i < self.heads.len() ==> (t@.contains(i) <==> #[trigger] self.heads@[i as int]
                    <= offset),
    {
        let mut t: Vec<usize> = Vec::new();
        let mut i: usize = 0;
        while i < self.heads.len()
            invariant
                i <= self.heads.len(),
                forall|k: int| 0 <= k < t.len() ==> (#[trigger] t[k]) < i,
                forall|k: int, l: int| 0 <= k < l < t.len() ==> t[k] < t[l],
                forall|j: usize|
                    j < i ==> (t@.contains(j) <==> #[trigger] self.heads@[j as int] <= offset),
            decreases self.heads.len() - i,
        {
            let ghost before = t@;
            if self.heads[i] <= offset {
                t.push(i);
                proof {
                    assert(t@[before.len() as int] == i);
                    assert forall|j: usize| j < i implies (t@.contains(j) <==> before.contains(j)) by {
                        if before.contains(j) {
                            let k = before.index_of(j);
                            assert(t@[k] == j);
                        }
                    }
                }
            }
            i += 1;
        }
        t
    }

    /// Where the sinks stand after writes at `offset`: those that took the
    /// record moved past it.
    pub open spec fn settled(
        &self,
        offset: u64,
        results: Seq<(usize, Result<(), SinkError>)>,
        after: &TeeHeads,
    ) -> bool {
        forall|i: int|
            0 <= i < self.heads.len() ==> #[trigger] after.heads@[i] == if succeeded(results, i) {
                (offset + 1) as u64
            } else {
                self.heads@[i]
            }
    }

    /// Take in how the writes at `offset` went. Sinks that took the record
    /// move past it. The first failure, in the order of the results, is
    /// the outcome; only without one does the resume cursor move.
    pub fn settle_write(
        &mut self,
        offset: u64,
        results: &Vec<(usize, Result<(), SinkError>)>,
    ) -> (r: Result<(), SinkError>)
        requires
            old(self).wf(),
            offset < u64::MAX,
            forall|k: int| 0 <= k < results.len() ==> (#[trigger] results@[k]).0 < old(self).heads.len(),
        ensures
            final(self).wf(),
            final(self).names == old(self).names,
            final(self).heads.len() == old(self).heads.len(),
            old(self).settled(offset, results@, final(self)),
            final(self).resume_cursor == if r is Ok {
                moved_cursor(old(self).resume_cursor, offset)
            } else {
                old(self).resume_cursor
            },
            outcome(old(self).names@, ""@, results@, r),
    {
        let ghost heads0 = self.heads@;
        let ghost n = self.heads.len();
        let mut k: usize = 0;
        while k < results.len()
            invariant
                k <= results.len(),
                n == heads0.len(),
                self.heads.len() == n,
                self.names == old(self).names,
                self.resume_cursor == old(self).resume_cursor,
                offset < u64::MAX,
                forall|j: int| 0 <= j < results.len() ==> (#[trigger] results@[j]).0 < n,
                forall|i: int|
                    0 <= i < n ==> #[trigger] self.heads@[i] == if succeeded(
                        results@.take(k as int),
                        i,
                    ) {
                        (offset + 1) as u64
                    } else {
                        heads0[i]
                    },
            decreases results.len() - k,
        {
            let ghost before = results@.take(k as int);
            let ghost after = results@.take(k + 1);
            proof {
                assert(after =~= before.push(results@[k as int]));
                assert forall|i: int| 0 <= i < n implies (succeeded(after, i) <==> succeeded(before, i)
                    || (results@[k as int].0 == i && results@[k as int].1 is Ok)) by {
                    if succeeded(before, i) {
                        let j = choose|j: int|
                            0 <= j < before.len() && (#[trigger] before[j]).0 == i && before[j].1 is Ok;
                        assert(after[j] == before[j]);
                    }
                    if results@[k as int].0 == i && results@[k as int].1 is Ok {
                        assert(after[k as int].0 == i);
                    }
                    if succeeded(after, i) {
                        let j = choose|j: int|
                            0 <= j < after.len() && (#[trigger] after[j]).0 == i && after[j].1 is Ok;
                        if j < k {
                            assert(before[j] == after[j]);
                        }
                    }
                }
            }
            if results[k].1.is_ok() {
                self.heads.set(results[k].0, offset + 1);
            }
            k += 1;
        }
        assert(results@.take(k as int) =~= results@);
        let r = self.report(results, "");
        if r.is_ok() {
            self.advance_resume_cursor(offset);
        }
        r
    }

    /// The outcome of a call on several sinks; `stage` names the call.
    pub fn report(&self, results: &Vec<(usize, Result<(), SinkError>)>, stage: &str) -> (r: Result<
        (),
        SinkError,
    >)
        requires
            forall|k: int| 0 <= k < results.len() ==> (#[trigger] results@[k]).0
                < self.names.len(),
        ensures
            outcome(self.names@, stage@, results@, r),
    {
        let mut k: usize = 0;
        assert(results@.skip(0) =~= results@);
        while k < results.len()
            invariant
                k <= results.len(),
                forall|k: int| 0 <= k < results.len() ==> (#[trigger] results@[k]).0
                    < self.names.len(),
                first_failure(results@) == k + first_failure(results@.skip(k as int)),
            decreases results.len() - k,
        {
            assert(results@.skip(k as int).skip(1) =~= results@.skip(k + 1));
            if let Err(e) = &results[k].1 {
                let name = self.names[results[k].0].as_str();
                return Err(
                    SinkError::Transport(
                        "inner sink ".to_owned().concat(name).concat(stage).concat(": ").concat(
                            e.message().as_str(),
                        ),
                    ),
                );
            }
            k += 1;
        }
        Ok(())
    }

    /// Keep the resume cursor in step with a written or skipped record.
    pub fn advance_resume_cursor(&mut self, offset: u64)
        requires
            offset < u64::MAX,
        ensures
            *final(self) == (TeeHeads {
                resume_cursor: moved_cursor(old(self).resume_cursor, offset),
                ..*old(self)
            }),
    {
        if let Some(c) = self.resume_cursor {
            self.resume_cursor = Some(
                if c > offset {
                    c
                } else {
                    offset + 1
                },
            );
        }
    }

    /// Take in how moving every sink up to `low_watermark` went: without
    /// a failure every head is there, the resume cursor is not below it,
    /// and so the tee stands there.
    pub fn settle_align(
        &mut self,
        low_watermark: u64,
        results: &Vec<(usize, Result<(), SinkError>)>,
    ) -> (r: Result<(), SinkError>)
        requires
            old(self).wf(),
            forall|k: int| 0 <= k < results.len() ==> (#[trigger] results@[k]).0 < old(self).names.len(),
        ensures
            final(self).wf(),
            final(self).names == old(self).names,
            outcome(old(self).names@, " align"@, results@, r),
            r is Ok ==> final(self).heads@ == Seq::new(
                old(self).heads@.len(),
                |i: int| low_watermark,
            ),
            r is Ok ==> final(self).resume_cursor == raised_cursor(
                old(self).resume_cursor,
                low_watermark,
            ),
            r is Ok ==> final(self).stands_at(low_watermark),
            r is Err ==> *final(self) == *old(self),
    {
        let r = self.report(results, " align");
        if r.is_ok() {
            if let Some(c) = self.resume_cursor {
                if c < low_watermark {
                    self.resume_cursor = Some(low_watermark);
                }
            }
            let mut i: usize = 0;
            let ghost n = self.heads.len();
            while i < self.heads.len()
                invariant
                    i <= self.heads.len(),
                    self.heads.len() == n,
                    self.names == old(self).names,
                    self.resume_cursor == raised_cursor(old(self).resume_cursor, low_watermark),
                    forall|j: int| 0 <= j < i ==> self.heads@[j] == low_watermark,
                decreases self.heads.len() - i,
            {
                self.heads.set(i, low_watermark);
                i += 1;
            }
            assert(self.heads@ =~= Seq::new(n as nat, |i: int| low_watermark));
            assert(self.heads@[0] == low_watermark);
            assert(is_least(low_watermark, self.heads@));
        }
        r
    }
}

/// The least of a list that is not empty.
fn least(v: &Vec<u64>) -> (m: u64)
    requires
        v.len() > 0,
    ensures
        is_least(m, v@),
{
    let mut m: u64 = v[0];
    let mut i: usize = 1;
    assert(v@[0] == m);
    while i < v.len()
        invariant
            1 <= i <= v.len(),
            v@.contains(m),
            forall|j: int| 0 <= j < i ==> m <= #[trigger] v@[j],
        decreases v.len() - i,
    {
        if v[i] < m {
            m = v[i];
        }
        i += 1;
    }
    m
}

/// The tee's position is one offset: it has exactly one least head.
pub proof fn law_position_is_unique(t: TeeHeads, p: u64, q: u64)
    requires
        t.stands_at(p),
        t.stands_at(q),
    ensures
        p == q,
{
    let m = choose|m: u64| #[trigger]
        is_least(m, t.heads@) && p == match t.resume_cursor {
            Some(c) => if c < m {
                c
            } else {
                m
            },
            None => m,
        };
    let n = choose|m: u64| #[trigger]
        is_least(m, t.heads@) && q == match t.resume_cursor {
            Some(c) => if c < m {
                c
            } else {
                m
            },
            None => m,
        };
    let i = t.heads@.index_of(m);
    let j = t.heads@.index_of(n);
    assert(m <= t.heads@[j]);
    assert(n <= t.heads@[i]);
}

/// After a write at or above the tee's position that every sink behind it
/// took, the tee stands right after the written offset. So the position
/// that the tee reports while the source is idle is the one that the run
/// loop expects, also while records are read again for notification.
pub proof fn law_position_follows_writes(before: TeeHeads, after: TeeHeads, offset: u64, p: u64)
    requires
        before.wf(),
        before.stands_at(p),
        p <= offset < u64::MAX,
        after.names == before.names,
        after.heads.len() == before.heads.len(),
        forall|i: int|
            0 <= i < before.heads.len() ==> #[trigger] after.heads@[i] == if before.heads@[i]
                <= offset {
                (offset + 1) as u64
            } else {
                before.heads@[i]
            },
        after.resume_cursor == moved_cursor(before.resume_cursor, offset),
    ensures
        after.stands_at((offset + 1) as u64),
{
    let m = choose|m: u64| #[trigger]
        is_least(m, before.heads@) && p == match before.resume_cursor {
            Some(c) => if c < m {
                c
            } else {
                m
            },
            None => m,
        };
    let i = before.heads@.index_of(m);
    let low = if m <= offset {
        (offset + 1) as u64
    } else {
        m
    };
    assert(after.heads@[i] == low);
    assert forall|j: int| 0 <= j < after.heads.len() implies low <= #[trigger] after.heads@[j] by {
        assert(m <= before.heads@[j]);
    }
    assert(is_least(low, after.heads@));
}

/// A tee over sinks of one kind. Records go into the cache once, then to
/// every sink that has not passed them.
pub struct TeeSink<K> {
    pub inners: Vec<K>,
    pub heads: TeeHeads,
    pub cache: Option<CacheBinding>,
    /// The offsets of the records that the tee accepted.
    pub accepted: Ghost<Seq<u64>>,
}

/// The contents of the bound cache, and the mirror it is bound to.
pub open spec fn bound_cache(b: Option<CacheBinding>) -> Option<(CacheView, Seq<char>)> {
    match b {
        Some(c) => Some((c.state@, c.mirror_name@)),
        None => None,
    }
}

/// The bound cache after a record.
pub open spec fn fed_cache(b: Option<CacheBinding>, r: RecordView) -> Option<
    (CacheView, Seq<char>),
> {
    match b {
        Some(c) => Some(
            (
                match c.state@.slot(c.mirror_name@) {
                    Some(s) => c.state@.with_slot(
                        c.mirror_name@,
                        s.applied(r, c.state@.tolerance),
                    ),
                    None => c.state@,
                },
                c.mirror_name@,
            ),
        ),
        None => None,
    }
}

/// Whether the sinks answer alike whether they can do without offsets.
pub open spec fn same_tolerance<K: Sink>(a: Seq<K>, b: Seq<K>) -> bool {
    a.len() == b.len() && forall|i: int|
        0 <= i < a.len() ==> (#[trigger] a[i]).tolerates_gaps() == b[i].tolerates_gaps()
}

/// A round of asking the sinks for their positions, in order, up to the
/// first that cannot answer. `answers` are what they said; each sink that
/// was asked and answered moved its head up to its answer, unless the head
/// was there already.
pub open spec fn asked_all<K: Sink>(
    before: TeeSink<K>,
    after: TeeSink<K>,
    answers: Seq<Result<u64, SinkError>>,
) -> bool {
    let n = before.inners@.len();
    &&& answers.len() <= n
    &&& after.inners@.len() == n
    &&& after.heads.heads@.len() == before.heads.heads@.len()
    &&& forall|i: int|
        0 <= i < answers.len() ==> (#[trigger] before.inners@[i]).reports_position(
            &after.inners@[i],
            answers[i],
        )
    &&& forall|i: int|
        answers.len() <= i < n ==> #[trigger] after.inners@[i] == before.inners@[i]
    &&& forall|i: int|
        0 <= i < n ==> #[trigger] after.heads.heads@[i] == if i < answers.len()
            && answers[i] is Ok && answers[i]->Ok_0 > before.heads.heads@[i] {
            answers[i]->Ok_0
        } else {
            before.heads.heads@[i]
        }
    &&& forall|i: int| 0 <= i < answers.len() - 1 ==> #[trigger] answers[i] is Ok
}

/// What a round of asking says: the position that the tee then stands at
/// where every sink answered, and the error of the one that could not.
pub open spec fn position_answer<K: Sink>(
    before: TeeSink<K>,
    after: TeeSink<K>,
    answers: Seq<Result<u64, SinkError>>,
    r: Result<u64, SinkError>,
) -> bool {
    &&& asked_all(before, after, answers)
    &&& match r {
        Ok(p) => {
            &&& answers.len() == before.inners@.len()
            &&& answers.len() > 0 ==> answers.last() is Ok
            &&& after.heads.stands_at(p)
        },
        Err(e) => answers.len() > 0 && answers.last() == Err::<u64, SinkError>(e),
    }
}

/// Whether every sink was asked to flush, with `results` as the answers,
/// in order.
pub open spec fn flushed_all<K: Sink>(
    before: Seq<K>,
    after: Seq<K>,
    results: Seq<(usize, Result<(), SinkError>)>,
) -> bool {
    &&& after.len() == before.len()
    &&& results.len() == before.len()
    &&& forall|i: int|
        0 <= i < before.len() ==> (#[trigger] results[i]).0 == i && before[i].flushes(
            &after[i],
            results[i].1,
        )
}

/// Whether every sink whose head has not passed the record was handed it,
/// with `results` as the answers, in order, and no other sink was touched.
pub open spec fn wrote_all<K: Sink>(
    before: Seq<K>,
    after: Seq<K>,
    heads: Seq<u64>,
    record: RecordView,
    results: Seq<(usize, Result<(), SinkError>)>,
) -> bool {
    &&& after.len() == before.len()
    &&& forall|k: int|
        0 <= k < results.len() ==> (#[trigger] results[k]).0 < before.len()
            && heads[results[k].0 as int] <= record.source_offset
            && before[results[k].0 as int].takes_record(
            &after[results[k].0 as int],
            record,
            results[k].1,
        )
    &&& forall|k: int, l: int| 0 <= k < l < results.len() ==> results[k].0 < results[l].0
    &&& forall|i: int|
        0 <= i < before.len() && heads[i] <= record.source_offset ==> exists|k: int|
            0 <= k < results.len() && (#[trigger] results[k]).0 == i
    &&& forall|i: int|
        0 <= i < before.len() && heads[i] > record.source_offset ==> #[trigger] after[i]
            == before[i]
}

/// Whether every sink was asked to move up to `low_watermark`, with
/// `results` as the answers, in order.
pub open spec fn aligned_all<K: Sink>(
    before: Seq<K>,
    after: Seq<K>,
    low_watermark: u64,
    results: Seq<(usize, Result<(), SinkError>)>,
) -> bool {
    &&& after.len() == before.len()
    &&& results.len() == before.len()
    &&& forall|i: int|
        0 <= i < before.len() ==> (#[trigger] results[i]).0 == i && before[i].aligns_to(
            &after[i],
            low_watermark,
            results[i].1,
        )
}

/// Whether the first `n` sinks can do without offsets.
pub open spec fn tolerant_up_to<K: Sink>(s: Seq<K>, n: int) -> bool {
    forall|i: int| 0 <= i < n ==> (#[trigger] s[i]).tolerates_gaps()
}

/// The answers of sinks that are opened, asked in order up to the first
/// that cannot answer.
pub open spec fn answered<K: Sink>(
    before: Seq<K>,
    after: Seq<K>,
    answers: Seq<Result<u64, SinkError>>,
) -> bool {
    &&& answers.len() <= before.len()
    &&& after.len() == before.len()
    &&& forall|i: int|
        0 <= i < answers.len() ==> (#[trigger] before[i]).reports_position(&after[i], answers[i])
    &&& forall|i: int| answers.len() <= i < before.len() ==> #[trigger] after[i] == before[i]
    &&& forall|i: int| 0 <= i < answers.len() - 1 ==> #[trigger] answers[i] is Ok
}

/// What opening a tee gives for the answers of its sinks: their positions
/// as heads where all answered, and the error of the one that could not.
pub open spec fn opens_as<K: Sink>(
    before: Seq<K>,
    after: Seq<K>,
    answers: Seq<Result<u64, SinkError>>,
    r: Result<TeeSink<K>, SinkError>,
) -> bool {
    &&& answered(before, after, answers)
    &&& match r {
        Ok(t) => {
            &&& before.len() > 0
            &&& answers.len() == before.len()
            &&& t.inners@ == after
            &&& t.heads.heads@.len() == before.len()
            &&& forall|i: int|
                0 <= i < before.len() ==> answers[i] == Ok::<u64, SinkError>(
                    #[trigger] t.heads.heads@[i],
                )
        },
        Err(e) => if before.len() == 0 {
            e matches SinkError::Transport(m) && m@ == "TeeSink requires at least one inner sink"@
        } else {
            answers.len() > 0 && answers.last() == Err::<u64, SinkError>(e)
        },
    }
}

impl<K: Sink> TeeSink<K> {
    /// Every sink is sound and has a head, there is at least one, and so
    /// is the cache.
    pub open spec fn wf(&self) -> bool {
        &&& self.heads.wf()
        &&& self.inners.len() == self.heads.heads.len()
        &&& forall|i: int| 0 <= i < self.inners.len() ==> (#[trigger] self.inners@[i]).valid()
        &&& self.cache matches Some(c) ==> c.state.wf()
    }

    /// A tee over sinks whose positions are known.
    pub fn from_inners_for_test(
        names: Vec<String>,
        inners: Vec<K>,
        heads: Vec<u64>,
        cache: Option<CacheBinding>,
    ) -> (r: Self)
        requires
            names.len() == inners.len(),
            heads.len() == inners.len(),
            inners.len() > 0,
            forall|i: int| 0 <= i < inners.len() ==> (#[trigger] inners@[i]).valid(),
            cache matches Some(c) ==> c.state.wf(),
        ensures
            r.wf(),
            r.inners == inners,
            r.heads == (TeeHeads { names, heads, resume_cursor: None }),
            r.cache == cache,
    {
        TeeSink {
            inners,
            heads: TeeHeads { names, heads, resume_cursor: None },
            cache,
            accepted: Ghost(Seq::empty()),
        }
    }

    /// Ask each sink where it stands and build a tee over them. There must
    /// be at least one, and the first that cannot answer is an error.
    pub fn open(names: Vec<String>, inners: Vec<K>, cache: Option<CacheBinding>) -> (r: Result<
        Self,
        SinkError,
    >)
        requires
            names.len() == inners.len(),
            forall|i: int| 0 <= i < inners.len() ==> (#[trigger] inners@[i]).valid(),
            cache matches Some(c) ==> c.state.wf(),
        ensures
            exists|after: Seq<K>, answers: Seq<Result<u64, SinkError>>| #[trigger]
                opens_as(inners@, after, answers, r),
            r matches Ok(t) ==> {
                &&& t.wf()
                &&& t.heads.names == names
                &&& t.heads.resume_cursor is None
                &&& t.cache == cache
                &&& t.inners.len() == inners.len()
                &&& forall|i: int|
                    0 <= i < inners.len() ==> (#[trigger] t.inners@[i]).accepted_offsets()
                        == inners@[i].accepted_offsets()
            },
    {
        let mut sinks = inners;
        let mut heads: Vec<u64> = Vec::new();
        let ghost mut answers: Seq<Result<u64, SinkError>> = seq![];
        let mut i: usize = 0;
        while i < sinks.len()
            invariant
                i <= sinks.len(),
                heads.len() == i,
                answers.len() == i,
                answered(inners@, sinks@, answers),
                forall|j: int|
                    0 <= j < i ==> answers[j] == Ok::<u64, SinkError>(#[trigger] heads@[j]),
                sinks.len() == inners.len(),
                forall|j: int| 0 <= j < sinks.len() ==> (#[trigger] sinks@[j]).valid(),
                forall|j: int|
                    0 <= j < sinks.len() ==> (#[trigger] sinks@[j]).accepted_offsets()
                        == inners@[j].accepted_offsets(),
            decreases sinks.len() - i,
        {
            let answer = sinks[i].next_expected_offset();
            let ghost earlier = answers;
            proof {
                answers = answers.push(answer);
                assert forall|j: int| 0 <= j < answers.len() - 1 implies #[trigger] answers[j] is Ok by {
                    assert(answers[j] == Ok::<u64, SinkError>(heads@[j]));
                }
            }
            match answer {
                Ok(head) => heads.push(head),
                Err(e) => {
                    assert(opens_as(inners@, sinks@, answers, Err::<Self, SinkError>(e)));
                    return Err(e);
                },
            }
            i += 1;
        }
        let r = match TeeHeads::open(names, heads) {
            Ok(heads) => Ok(TeeSink { inners: sinks, heads, cache, accepted: Ghost(Seq::empty()) }),
            Err(e) => Err(e),
        };
        assert(opens_as(inners@, sinks@, answers, r));
        r
    }

    /// Have the source resume at `floor` if that is below every head.
    pub fn set_resume_floor(&mut self, floor: u64)
        requires
            old(self).wf(),
        ensures
            final(self).wf(),
            final(self).heads == (TeeHeads { resume_cursor: Some(floor), ..old(self).heads }),
            final(self).inners == old(self).inners,
            final(self).cache == old(self).cache,
            final(self).accepted == old(self).accepted,
    {
        self.heads.set_resume_floor(floor);
    }

    /// The name and the head of every sink, in order.
    pub fn heads(&self) -> (r: Vec<(String, u64)>)
        requires
            self.wf(),
        ensures
            r.len() == self.heads.heads.len(),
            forall|i: int|
                0 <= i < r.len() ==> (#[trigger] r@[i]).0@ == self.heads.names@[i]@ && r@[i].1
                    == self.heads.heads@[i],
    {
        let mut r: Vec<(String, u64)> = Vec::new();
        let mut i: usize = 0;
        while i < self.heads.heads.len()
            invariant
                i <= self.heads.heads.len(),
                self.wf(),
                r.len() == i,
                forall|j: int|
                    0 <= j < i ==> (#[trigger] r@[j]).0@ == self.heads.names@[j]@ && r@[j].1
                        == self.heads.heads@[j],
            decreases self.heads.heads.len() - i,
        {
            r.push((self.heads.names[i].clone(), self.heads.heads[i]));
            i += 1;
        }
        r
    }
}

impl<K: Sink> Sink for TeeSink<K> {
    open spec fn valid(&self) -> bool {
        self.wf()
    }

    open spec fn tolerates_gaps(&self) -> bool {
        forall|i: int|
            0 <= i < self.inners.len() ==> (#[trigger] self.inners@[i]).tolerates_gaps()
    }

    open spec fn accepted_offsets(&self) -> Seq<u64> {
        self.accepted@
    }

    /// Each sink is asked, up to the first that cannot answer.
    open spec fn reports_position(&self, after: &Self, r: Result<u64, SinkError>) -> bool {
        &&& exists|answers: Seq<Result<u64, SinkError>>| #[trigger]
            position_answer(*self, *after, answers, r)
        &&& after.heads.names == self.heads.names
        &&& after.heads.resume_cursor == self.heads.resume_cursor
        &&& after.cache == self.cache
    }

    /// The cache is fed, then every sink that has not passed the record is
    /// handed it, also after one that fails; those that took it move past
    /// it. The first failure counts, and only without one does the resume
    /// cursor move.
    open spec fn takes_record(
        &self,
        after: &Self,
        record: RecordView,
        r: Result<(), SinkError>,
    ) -> bool {
        let offset = record.source_offset;
        if offset == u64::MAX {
            &&& r matches Err(SinkError::Transport(m)) && m@ == "source offset overflowed u64"@
            &&& *after == *self
        } else {
            &&& exists|results: Seq<(usize, Result<(), SinkError>)>| #[trigger]
                wrote_all(self.inners@, after.inners@, self.heads.heads@, record, results)
                    && outcome(self.heads.names@, ""@, results, r) && self.heads.settled(
                    offset,
                    results,
                    &after.heads,
                )
            &&& bound_cache(after.cache) == fed_cache(self.cache, record)
            &&& after.heads.names == self.heads.names
            &&& after.heads.heads.len() == self.heads.heads.len()
            &&& after.heads.resume_cursor == if r is Ok {
                moved_cursor(self.heads.resume_cursor, offset)
            } else {
                self.heads.resume_cursor
            }
        }
    }

    /// The sinks are asked in order, up to the first that cannot do without
    /// offsets.
    open spec fn tells_tolerance(&self, after: &Self) -> bool {
        &&& after.inners@.len() == self.inners@.len()
        &&& forall|i: int|
            0 <= i < self.inners@.len() ==> if tolerant_up_to(self.inners@, i) {
                (#[trigger] self.inners@[i]).tells_tolerance(&after.inners@[i])
            } else {
                after.inners@[i] == self.inners@[i]
            }
        &&& after.heads == self.heads
        &&& after.cache == self.cache
    }

    /// Every sink is asked to move; the first failure counts. Without one
    /// the tee stands at `low_watermark`.
    open spec fn aligns_to(
        &self,
        after: &Self,
        low_watermark: u64,
        r: Result<(), SinkError>,
    ) -> bool {
        &&& exists|results: Seq<(usize, Result<(), SinkError>)>| #[trigger]
            aligned_all(self.inners@, after.inners@, low_watermark, results) && outcome(
                self.heads.names@,
                " align"@,
                results,
                r,
            )
        &&& after.cache == self.cache
        &&& if r is Ok {
            &&& after.heads.names == self.heads.names
            &&& after.heads.heads@ == Seq::new(self.heads.heads@.len(), |i: int| low_watermark)
            &&& after.heads.resume_cursor == raised_cursor(
                self.heads.resume_cursor,
                low_watermark,
            )
            &&& after.heads.stands_at(low_watermark)
        } else {
            after.heads == self.heads
        }
    }

    /// Every sink is asked to flush, also after one that fails; the first
    /// failure counts.
    open spec fn flushes(&self, after: &Self, r: Result<(), SinkError>) -> bool {
        &&& exists|results: Seq<(usize, Result<(), SinkError>)>| #[trigger]
            flushed_all(self.inners@, after.inners@, results) && outcome(
                self.heads.names@,
                " flush"@,
                results,
                r,
            )
        &&& after.heads == self.heads
        &&& after.cache == self.cache
    }

    fn next_expected_offset(&mut self) -> (r: Result<u64, SinkError>)
        ensures
            r matches Ok(p) ==> final(self).heads.stands_at(p),
            final(self).heads.names == old(self).heads.names,
            final(self).heads.resume_cursor == old(self).heads.resume_cursor,
            final(self).heads.heads.len() == old(self).heads.heads.len(),
            forall|i: int|
                0 <= i < old(self).heads.heads.len() ==> old(self).heads.heads@[i] <= #[trigger] final(self).heads.heads@[i],
            final(self).cache == old(self).cache,
    {
        let ghost n = self.inners.len();
        let ghost mut answers: Seq<Result<u64, SinkError>> = seq![];
        let mut i: usize = 0;
        while i < self.inners.len()
            invariant
                i <= n,
                n == self.inners.len(),
                n == old(self).inners.len(),
                answers.len() == i,
                forall|j: int| 0 <= j < i ==> #[trigger] answers[j] is Ok,
                asked_all(*old(self), *self, answers),
                n == old(self).heads.heads.len(),
                self.wf(),
                self.heads.names == old(self).heads.names,
                self.heads.resume_cursor == old(self).heads.resume_cursor,
                self.cache == old(self).cache,
                self.accepted == old(self).accepted,
                same_tolerance(old(self).inners@, self.inners@),
                forall|j: int|
                    0 <= j < n ==> old(self).heads.heads@[j] <= #[trigger] self.heads.heads@[j],
            decreases n - i,
        {
            let answer = self.inners[i].next_expected_offset();
            proof {
                answers = answers.push(answer);
            }
            match answer {
                Ok(head) => self.heads.refresh(i, head),
                Err(e) => {
                    proof {
                        assert(position_answer(*old(self), *self, answers, Err(e)));
                        lemma_tolerance(*old(self), *self);
                    }
                    return Err(e);
                },
            }
            i += 1;
        }
        let p = self.heads.position();
        proof {
            lemma_tolerance(*old(self), *self);
            assert(position_answer(*old(self), *self, answers, Ok(p)));
        }
        Ok(p)
    }

    fn write(&mut self, record: Record) -> (r: Result<(), SinkError>)
        ensures
            record.source_offset == u64::MAX ==> r is Err && *final(self) == *old(self),
            record.source_offset < u64::MAX ==> (final(self).cache is Some <==> old(self).cache is Some),
            record.source_offset < u64::MAX ==> (old(self).cache matches Some(c)
                ==> final(self).cache->0.mirror_name@ == c.mirror_name@ && final(self).cache->0.state@
                == c.state@.after(
                CacheCall::Apply { name: c.mirror_name@, record: record@ },
            )),
            record.source_offset < u64::MAX ==> {
                let offset = record.source_offset;
                &&& bound_cache(final(self).cache) == fed_cache(old(self).cache, record@)
                &&& final(self).heads.names == old(self).heads.names
                &&& final(self).heads.heads.len() == old(self).heads.heads.len()
                // A sink that has passed the record is not written to.
                &&& forall|i: int|
                    0 <= i < old(self).inners.len() && old(self).heads.heads@[i] > offset
                        ==> #[trigger] final(self).inners@[i] == old(self).inners@[i]
                        && final(self).heads.heads@[i] == old(self).heads.heads@[i]
                // Any other sink took the record and moved past it, or
                // refused it and stayed.
                &&& forall|i: int|
                    0 <= i < old(self).inners.len() && old(self).heads.heads@[i] <= offset ==> {
                        ||| (#[trigger] final(self).inners@[i]).accepted_offsets() == old(self).inners@[i].accepted_offsets().push(offset)
                            && final(self).heads.heads@[i] == offset + 1
                        ||| r is Err && final(self).inners@[i].accepted_offsets() == old(self).inners@[i].accepted_offsets() && final(self).heads.heads@[i] == old(self).heads.heads@[i]
                    }
                &&& final(self).heads.resume_cursor == if r is Ok {
                    moved_cursor(old(self).heads.resume_cursor, offset)
                } else {
                    old(self).heads.resume_cursor
                }
                // Without a sink to write to the record is done with.
                &&& (forall|i: int|
                    0 <= i < old(self).inners.len() ==> #[trigger] old(self).heads.heads@[i]
                        > offset) ==> r is Ok
            },
    {
        let offset: u64 = record.source_offset;
        if offset == u64::MAX {
            return Err(SinkError::Transport("source offset overflowed u64".to_owned()));
        }
        if let Some(binding) = &mut self.cache {
            binding.state.apply_record(binding.mirror_name.as_str(), &record);
        }
        let ghost inners0 = old(self).inners@;
        let ghost n = self.inners.len();
        let targets = self.heads.targets(offset);
        let mut results: Vec<(usize, Result<(), SinkError>)> = Vec::new();
        let mut k: usize = 0;
        while k < targets.len()
            invariant
                k <= targets.len(),
                results.len() == k,
                n == inners0.len(),
                self.inners.len() == n,
                self.heads == old(self).heads,
                self.heads.heads.len() == n,
                self.heads.wf(),
                self.accepted == old(self).accepted,
                bound_cache(self.cache) == fed_cache(old(self).cache, record@),
                self.cache matches Some(c) ==> c.state.wf(),
                inners0 == old(self).inners@,
                offset == record.source_offset,
                same_tolerance(inners0, self.inners@),
                forall|i: int| 0 <= i < n ==> (#[trigger] self.inners@[i]).valid(),
                forall|j: int| 0 <= j < targets.len() ==> (#[trigger] targets[j]) < n,
                forall|j: int, l: int| 0 <= j < l < targets.len() ==> targets[j] < targets[l],
                forall|j: int|
                    0 <= j < k ==> (#[trigger] results@[j]).0 == targets[j]
                        && inners0[targets[j] as int].takes_record(
                        &self.inners@[targets[j] as int],
                        record@,
                        results@[j].1,
                    ) && self.inners@[targets[j] as int].accepted_offsets()
                        == match results@[j].1 {
                        Ok(_) => inners0[targets[j] as int].accepted_offsets().push(offset),
                        Err(_) => inners0[targets[j] as int].accepted_offsets(),
                    },
                forall|i: int|
                    0 <= i < n && (forall|j: int| 0 <= j < k ==> (#[trigger] targets[j]) != i)
                        ==> #[trigger] self.inners@[i] == inners0[i],
            decreases targets.len() - k,
        {
            let i = targets[k];
            assert(self.inners@[i as int] == inners0[i as int]);
            let r = self.inners[i].write(record.clone());
            results.push((i, r));
            k += 1;
        }
        let r = self.heads.settle_write(offset, &results);
        proof {
            lemma_tolerance(*old(self), *self);
            assert forall|i: int|
                0 <= i < n && old(self).heads.heads@[i] <= offset implies targets@.contains(
                i as usize,
            ) by {
                assert(old(self).heads.heads@[(i as usize) as int] <= offset);
            }
            assert forall|i: int| 0 <= i < n && old(self).heads.heads@[i] > offset implies
                !succeeded(results@, i) && #[trigger] self.inners@[i] == inners0[i] by {
                assert(!targets@.contains(i as usize)) by {
                    assert(old(self).heads.heads@[(i as usize) as int] > offset);
                }
                assert forall|j: int| 0 <= j < targets.len() implies (#[trigger] targets[j]) != i by {
                    assert(targets@.contains(targets[j]));
                }
                if succeeded(results@, i) {
                    let j = choose|j: int|
                        0 <= j < results.len() && (#[trigger] results@[j]).0 == i
                            && results@[j].1 is Ok;
                    assert(targets[j] == i);
                }
            }
            lemma_first_failure(results@);
            assert forall|i: int| 0 <= i < n && old(self).heads.heads@[i] <= offset implies {
                ||| (#[trigger] self.inners@[i]).accepted_offsets()
                    == inners0[i].accepted_offsets().push(offset) && self.heads.heads@[i] == offset + 1
                ||| r is Err && self.inners@[i].accepted_offsets() == inners0[i].accepted_offsets()
                    && self.heads.heads@[i] == old(self).heads.heads@[i]
            } by {
                assert(targets@.contains(i as usize));
                let j = targets@.index_of(i as usize);
                assert(results@[j].0 == i);
                if results@[j].1 is Err {
                    if succeeded(results@, i) {
                        let l = choose|l: int|
                            0 <= l < results.len() && (#[trigger] results@[l]).0 == i
                                && results@[l].1 is Ok;
                        assert(targets[l] == targets[j]);
                        assert(l == j);
                    }
                }
            }
            let heads = old(self).heads.heads@;
            assert forall|k: int| 0 <= k < results.len() implies heads[(
            #[trigger] results@[k]).0 as int] <= offset by {
                assert(targets@.contains(targets[k]));
                assert(results@[k].0 == targets[k]);
            }
            assert forall|k: int, l: int| 0 <= k < l < results.len() implies results@[k].0
                < results@[l].0 by {
                assert(results@[k].0 == targets[k] && results@[l].0 == targets[l]);
            }
            assert forall|i: int| 0 <= i < n && heads[i] <= offset implies exists|k: int|
                0 <= k < results.len() && (#[trigger] results@[k]).0 == i by {
                let k = targets@.index_of(i as usize);
                assert(results@[k].0 == i);
            }
        }
        if r.is_ok() {
            self.accepted = Ghost(self.accepted@.push(offset));
        }
        proof {
            assert(wrote_all(inners0, self.inners@, old(self).heads.heads@, record@, results@));
            assert(old(self).heads.settled(offset, results@, &self.heads));
        }
        r
    }

    fn flush(&mut self) -> (r: Result<(), SinkError>)
        ensures
            final(self).heads == old(self).heads,
            final(self).cache == old(self).cache,
            final(self).inners.len() == old(self).inners.len(),
            forall|i: int|
                0 <= i < old(self).inners.len() ==> (#[trigger] final(self).inners@[i]).accepted_offsets() == old(self).inners@[i].accepted_offsets(),
    {
        let ghost n = self.inners.len();
        let mut results: Vec<(usize, Result<(), SinkError>)> = Vec::new();
        let mut i: usize = 0;
        while i < self.inners.len()
            invariant
                i <= n,
                n == self.inners.len(),
                n == old(self).inners.len(),
                n == self.heads.names.len(),
                self.wf(),
                self.heads == old(self).heads,
                self.cache == old(self).cache,
                self.accepted == old(self).accepted,
                results.len() == i,
                same_tolerance(old(self).inners@, self.inners@),
                forall|j: int|
                    0 <= j < i ==> (#[trigger] results@[j]).0 == j && old(self).inners@[j].flushes(
                        &self.inners@[j],
                        results@[j].1,
                    ),
                forall|j: int| i <= j < n ==> #[trigger] self.inners@[j] == old(self).inners@[j],
                forall|j: int|
                    0 <= j < n ==> (#[trigger] self.inners@[j]).accepted_offsets() == old(self).inners@[j].accepted_offsets(),
            decreases n - i,
        {
            let r = self.inners[i].flush();
            results.push((i, r));
            i += 1;
        }
        let r = self.heads.report(&results, " flush");
        proof {
            assert(flushed_all(old(self).inners@, self.inners@, results@));
            lemma_tolerance(*old(self), *self);
        }
        r
    }

    fn allows_compacted_source(&mut self) -> (r: bool)
        ensures
            final(self).heads == old(self).heads,
            final(self).cache == old(self).cache,
    {
        let ghost n = self.inners.len();
        let mut i: usize = 0;
        while i < self.inners.len()
            invariant
                i <= n,
                n == self.inners.len(),
                self.wf(),
                self.heads == old(self).heads,
                self.cache == old(self).cache,
                self.accepted == old(self).accepted,
                n == old(self).inners.len(),
                same_tolerance(old(self).inners@, self.inners@),
                tolerant_up_to(old(self).inners@, i as int),
                forall|j: int|
                    0 <= j < i ==> (#[trigger] old(self).inners@[j]).tells_tolerance(
                        &self.inners@[j],
                    ),
                forall|j: int| i <= j < n ==> #[trigger] self.inners@[j] == old(self).inners@[j],
            decreases n - i,
        {
            if !self.inners[i].allows_compacted_source() {
                proof {
                    assert(!old(self).inners@[i as int].tolerates_gaps());
                    lemma_tolerance(*old(self), *self);
                }
                return false;
            }
            assert(old(self).inners@[i as int].tolerates_gaps());
            i += 1;
        }
        proof {
            lemma_tolerance(*old(self), *self);
        }
        true
    }

    fn align_to_source_low_watermark(&mut self, low_watermark: u64) -> (r: Result<(), SinkError>)
        ensures
            r is Ok ==> final(self).heads.heads@ == Seq::new(
                old(self).heads.heads@.len(),
                |i: int| low_watermark,
            ),
            r is Ok ==> final(self).heads.stands_at(low_watermark),
            r is Err ==> final(self).heads == old(self).heads,
            final(self).heads.names == old(self).heads.names,
            final(self).cache == old(self).cache,
    {
        let ghost n = self.inners.len();
        let mut results: Vec<(usize, Result<(), SinkError>)> = Vec::new();
        let mut i: usize = 0;
        while i < self.inners.len()
            invariant
                i <= n,
                n == self.inners.len(),
                n == self.heads.names.len(),
                self.wf(),
                self.heads == old(self).heads,
                self.cache == old(self).cache,
                self.accepted == old(self).accepted,
                results.len() == i,
                same_tolerance(old(self).inners@, self.inners@),
                n == old(self).inners.len(),
                forall|j: int|
                    0 <= j < i ==> (#[trigger] results@[j]).0 == j && old(self).inners@[j].aligns_to(
                        &self.inners@[j],
                        low_watermark,
                        results@[j].1,
                    ),
                forall|j: int| i <= j < n ==> #[trigger] self.inners@[j] == old(self).inners@[j],
            decreases n - i,
        {
            let r = self.inners[i].align_to_source_low_watermark(low_watermark);
            results.push((i, r));
            i += 1;
        }
        let r = self.heads.settle_align(low_watermark, &results);
        proof {
            assert(aligned_all(old(self).inners@, self.inners@, low_watermark, results@));
            lemma_tolerance(*old(self), *self);
        }
        r
    }
}

proof fn lemma_tolerance<K: Sink>(a: TeeSink<K>, b: TeeSink<K>)
    requires
        same_tolerance(a.inners@, b.inners@),
    ensures
        a.tolerates_gaps() == b.tolerates_gaps(),
{
    if a.tolerates_gaps() {
        assert forall|i: int| 0 <= i < b.inners.len() implies (
        #[trigger] b.inners@[i]).tolerates_gaps() by {
            assert(a.inners@[i].tolerates_gaps());
        }
    } else {
        let i = choose|i: int|
            0 <= i < a.inners.len() && !(#[trigger] a.inners@[i]).tolerates_gaps();
        assert(!b.inners@[i].tolerates_gaps());
    }
}

/// Without a failure every result is a success, and the first failure is
/// one.
proof fn lemma_first_failure(results: Seq<(usize, Result<(), SinkError>)>)
    ensures
        0 <= first_failure(results) <= results.len(),
        first_failure(results) == results.len() ==> forall|k: int|
            0 <= k < results.len() ==> (#[trigger] results[k]).1 is Ok,
        first_failure(results) < results.len() ==> results[first_failure(results)].1 is Err,
    decreases results.len(),
{
    if results.len() > 0 {
        lemma_first_failure(results.skip(1));
        if first_failure(results) == results.len() {
            assert forall|k: int| 0 <= k < results.len() implies (#[trigger] results[k]).1 is Ok by {
                if k > 0 {
                    assert(results.skip(1)[k - 1] == results[k]);
                }
            }
        }
    }
}

/// Where flush reports of a tee's sinks go.
#[derive(Debug, PartialEq, Eq)]
pub enum FlushRoute {
    /// No sink reports flushes.
    Nowhere,
    /// One sink does; its reports pass unchanged.
    Direct(usize),
    /// Several do; their reports are merged.
    Merged(Vec<usize>),
}

/// The places of the sinks that report flushes, in order.
pub open spec fn reporting(supports: Seq<bool>) -> Seq<usize>
    decreases supports.len(),
{
    if supports.len() == 0 {
        seq![]
    } else if supports.last() {
        reporting(supports.drop_last()).push((supports.len() - 1) as usize)
    } else {
        reporting(supports.drop_last())
    }
}

/// Decide where flush reports go. `supports` says which sinks report
/// flushes; a sink that commits every record does not, and would hold the
/// merged reports back forever.
pub fn route_flushes(supports: &Vec<bool>) -> (r: FlushRoute)
    ensures
        ({
            let who = reporting(supports@);
            match r {
                FlushRoute::Nowhere => who.len() == 0,
                FlushRoute::Direct(i) => who == seq![i],
                FlushRoute::Merged(v) => v@ == who && who.len() > 1,
            }
        }),
{
    let mut who: Vec<usize> = Vec::new();
    let mut i: usize = 0;
    while i < supports.len()
        invariant
            i <= supports.len(),
            who@ == reporting(supports@.take(i as int)),
        decreases supports.len() - i,
    {
        assert(supports@.take(i + 1).drop_last() =~= supports@.take(i as int));
        if supports[i] {
            who.push(i);
        }
        i += 1;
    }
    assert(supports@.take(i as int) =~= supports@);
    if who.len() == 0 {
        FlushRoute::Nowhere
    } else if who.len() == 1 {
        assert(who@ =~= seq![who@[0]]);
        FlushRoute::Direct(who[0])
    } else {
        FlushRoute::Merged(who)
    }
}

/// Merges the flush reports of several sinks: a range counts as flushed
/// once every sink has flushed past it.
#[derive(Debug)]
pub struct MinFlushCoordinator {
    pub per_sink_flushed_to: Vec<u64>,
    pub last_fired_to: Option<u64>,
}

impl MinFlushCoordinator {
    /// What was reported lies within what every sink has flushed.
    pub open spec fn wf(&self) -> bool {
        &&& self.per_sink_flushed_to.len() > 0
        &&& self.last_fired_to matches Some(to) ==> to > 0 && forall|i: int|
            0 <= i < self.per_sink_flushed_to.len() ==> to <= #[trigger] self.per_sink_flushed_to@[i]
    }

    pub fn new(num_sinks: usize) -> (r: Self)
        requires
            num_sinks > 0,
        ensures
            r.wf(),
            r.per_sink_flushed_to@ == Seq::new(num_sinks as nat, |i: int| 0u64),
            r.last_fired_to is None,
    {
        let mut v: Vec<u64> = Vec::new();
        while v.len() < num_sinks
            invariant
                v.len() <= num_sinks,
                forall|i: int| 0 <= i < v.len() ==> v@[i] == 0,
            decreases num_sinks - v.len(),
        {
            v.push(0);
        }
        assert(v@ =~= Seq::new(num_sinks as nat, |i: int| 0u64));
        MinFlushCoordinator { per_sink_flushed_to: v, last_fired_to: None }
    }

    /// What a report does: sink `i` has flushed through `to`, and `fire` is
    /// the range that every sink has now flushed beyond what was reported
    /// before, if there is one. It starts where the last range ended, or
    /// at zero.
    pub open spec fn noted(
        &self,
        i: int,
        to: u64,
        fire: Option<(u64, u64)>,
        after: &MinFlushCoordinator,
    ) -> bool {
        let flushed = self.per_sink_flushed_to@;
        &&& after.per_sink_flushed_to@ == flushed.update(
            i,
            if to > flushed[i] {
                to
            } else {
                flushed[i]
            },
        )
        &&& match fire {
            Some((from, upto)) => {
                &&& is_least(upto, after.per_sink_flushed_to@)
                &&& from == self.last_fired_to.unwrap_or(0)
                &&& from < upto
                &&& after.last_fired_to == Some(upto)
            },
            None => {
                &&& after.last_fired_to == self.last_fired_to
                &&& exists|m: u64| #[trigger]
                    is_least(m, after.per_sink_flushed_to@) && m <= self.last_fired_to.unwrap_or(0)
            },
        }
    }

    /// Take in that sink `sink_index` has flushed through `to`, and tell
    /// which range is to be reported.
    pub fn note(&mut self, sink_index: usize, to: u64) -> (fire: Option<(u64, u64)>)
        requires
            old(self).wf(),
            sink_index < old(self).per_sink_flushed_to.len(),
        ensures
            final(self).wf(),
            old(self).noted(sink_index as int, to, fire, final(self)),
    {
        if to > self.per_sink_flushed_to[sink_index] {
            self.per_sink_flushed_to.set(sink_index, to);
        } else {
            assert(self.per_sink_flushed_to@ =~= old(self).per_sink_flushed_to@.update(
                sink_index as int,
                old(self).per_sink_flushed_to@[sink_index as int],
            ));
        }
        let new_min = least(&self.per_sink_flushed_to);
        let from: u64 = match self.last_fired_to {
            Some(prev) => prev,
            None => 0,
        };
        if new_min > from {
            self.last_fired_to = Some(new_min);
            Some((from, new_min))
        } else {
            None
        }
    }
}

/// Two ranges that are reported one right after the other join up: the
/// second starts where the first ended. Neither reaches beyond what every
/// sink had flushed by then.
pub proof fn law_reported_ranges_join(
    a: MinFlushCoordinator,
    b: MinFlushCoordinator,
    c: MinFlushCoordinator,
    first: (int, u64, (u64, u64)),
    second: (int, u64, (u64, u64)),
)
    requires
        a.noted(first.0, first.1, Some(first.2), &b),
        b.noted(second.0, second.1, Some(second.2), &c),
    ensures
        second.2.0 == first.2.1,
        first.2.0 < first.2.1 < second.2.1,
        forall|i: int|
            0 <= i < c.per_sink_flushed_to.len() ==> second.2.1
                <= #[trigger] c.per_sink_flushed_to@[i],
{
}

/// A sink that took the record at `offset` is not handed that record, nor
/// an earlier one, again: it is no target of a write at `replayed`.
pub proof fn law_replays_do_not_rewrite(
    before: TeeHeads,
    after: TeeHeads,
    offset: u64,
    results: Seq<(usize, Result<(), SinkError>)>,
    i: int,
    replayed: u64,
)
    requires
        0 <= i < before.heads.len(),
        before.settled(offset, results, &after),
        succeeded(results, i),
        replayed <= offset < u64::MAX,
    ensures
        after.heads@[i] > replayed,
{
}

} // verus!
