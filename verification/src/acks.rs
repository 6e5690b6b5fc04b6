//! How far a mirror is done, as far as its destinations and its notifier
//! say, and what the source is told of it.
use vstd::prelude::*;

use crate::mirror::{AckSink, FlushObserver, WriteObserver};
use crate::text::{parse_number, parse_unsigned};

verus! {

/// How far one destination is done.
#[derive(Debug)]
pub struct DestAckSlot {
    pub name: String,
    /// Everything below this offset is durable.
    pub flushed_through: u64,
    /// Whether readiness depends on this destination.
    pub affects_readiness: bool,
}

/// The larger of two offsets.
pub open spec fn later(a: u64, b: u64) -> u64 {
    if a >= b {
        a
    } else {
        b
    }
}

impl DestAckSlot {
    pub fn new(name: String, affects_readiness: bool) -> (r: Self)
        ensures
            r == (DestAckSlot { name, flushed_through: 0, affects_readiness }),
    {
        DestAckSlot { name, flushed_through: 0, affects_readiness }
    }

    /// Note that everything below `through` is durable. It only moves
    /// forward.
    pub fn note_through(&mut self, through: u64)
        ensures
            *final(self) == (DestAckSlot {
                flushed_through: later(old(self).flushed_through, through),
                ..*old(self)
            }),
    {
        if through > self.flushed_through {
            self.flushed_through = through;
        }
    }
}

/// How far a mirror is done.
#[derive(Debug)]
pub struct AckTracker {
    /// How far the notifier is done, where there is one.
    pub notify: Option<u64>,
    pub destinations: Vec<DestAckSlot>,
}

/// Whether `m` is the largest of the destinations' offsets, or zero where
/// there is no destination.
pub open spec fn is_furthest(m: u64, d: Seq<DestAckSlot>) -> bool {
    &&& forall|i: int| 0 <= i < d.len() ==> (#[trigger] d[i]).flushed_through <= m
    &&& m > 0 ==> exists|i: int| 0 <= i < d.len() && (#[trigger] d[i]).flushed_through == m
}

impl AckTracker {
    pub fn new(notify_present: bool, destinations: Vec<DestAckSlot>) -> (r: Self)
        ensures
            r.notify == if notify_present {
                Some(0u64)
            } else {
                None
            },
            r.destinations == destinations,
    {
        AckTracker {
            notify: if notify_present {
                Some(0)
            } else {
                None
            },
            destinations,
        }
    }

    /// The offset to commit at the source. Where there is a notifier, that
    /// is how far it is done; else how far the furthest destination is.
    /// Zero says that nothing is done yet.
    pub fn commit_offset(&self) -> (r: u64)
        ensures
            match self.notify {
                Some(n) => r == n,
                None => is_furthest(r, self.destinations@),
            },
    {
        match self.notify {
            Some(n) => n,
            None => {
                let mut m: u64 = 0;
                let mut i: usize = 0;
                while i < self.destinations.len()
                    invariant
                        i <= self.destinations.len(),
                        is_furthest(m, self.destinations@.take(i as int)),
                    decreases self.destinations.len() - i,
                {
                    let ghost before = self.destinations@.take(i as int);
                    let ghost after = self.destinations@.take(i + 1);
                    let x: u64 = self.destinations[i].flushed_through;
                    proof {
                        assert(after =~= before.push(self.destinations@[i as int]));
                        assert forall|j: int| 0 <= j < before.len() implies before[j] == #[trigger] after[j] by {}
                        assert(after[i as int].flushed_through == x);
                        if m > 0 {
                            let j = choose|j: int|
                                0 <= j < before.len() && (#[trigger] before[j]).flushed_through == m;
                            assert(after[j].flushed_through == m);
                        }
                    }
                    if x > m {
                        m = x;
                    }
                    i += 1;
                }
                assert(self.destinations@.take(i as int) =~= self.destinations@);
                m
            },
        }
    }

    /// Note how far a destination is done.
    pub fn note_destination(&mut self, i: usize, through: u64)
        requires
            i < old(self).destinations.len(),
        ensures
            final(self).notify == old(self).notify,
            final(self).destinations@ == old(self).destinations@.update(
                i as int,
                DestAckSlot {
                    flushed_through: later(
                        old(self).destinations@[i as int].flushed_through,
                        through,
                    ),
                    ..old(self).destinations@[i as int]
                },
            ),
    {
        self.destinations[i].note_through(through);
        assert(self.destinations@ =~= old(self).destinations@.update(
            i as int,
            self.destinations@[i as int],
        ));
    }
}

impl AckSink for AckTracker {
    fn note_through(&mut self, through: u64)
        ensures
            final(self).destinations == old(self).destinations,
            final(self).notify == match old(self).notify {
                Some(n) => Some(later(n, through)),
                None => None,
            },
    {
        if let Some(n) = self.notify {
            if through > n {
                self.notify = Some(through);
            }
        }
    }
}

/// Takes the flushes of a destination as how far it is done.
pub struct FlushAckShim {
    pub dest: DestAckSlot,
}

impl FlushObserver for FlushAckShim {
    fn on_flushed(&mut self, from: u64, to: u64)
        ensures
            final(self).dest == (DestAckSlot {
                flushed_through: later(old(self).dest.flushed_through, (to + 1) as u64),
                ..old(self).dest
            }),
    {
        self.dest.note_through(to + 1);
    }
}

/// Takes the writes of a destination as how far it is done.
pub struct WriteAckShim {
    pub dest: DestAckSlot,
}

impl WriteObserver for WriteAckShim {
    fn on_written(&mut self, source_offset: u64)
        ensures
            final(self).dest == (DestAckSlot {
                flushed_through: later(old(self).dest.flushed_through, (source_offset + 1) as u64),
                ..old(self).dest
            }),
    {
        self.dest.note_through(source_offset + 1);
    }
}

/// The offsets committed at the source so far.
#[derive(Debug)]
pub struct CommitLoop {
    pub last_committed: u64,
}

impl CommitLoop {
    pub fn new() -> (r: Self)
        ensures
            r.last_committed == 0,
    {
        CommitLoop { last_committed: 0 }
    }

    /// What is committed when the mirror is done up to `offset`.
    pub open spec fn to_commit(&self, offset: u64) -> Option<u64> {
        if offset == 0 || offset == self.last_committed {
            None
        } else {
            Some(offset)
        }
    }

    /// What to commit when the mirror is done up to `offset`: nothing while
    /// nothing is done or nothing is new.
    pub fn due(&self, offset: u64) -> (r: Option<u64>)
        ensures
            r == if offset == 0 || offset == self.last_committed {
                None
            } else {
                Some(offset)
            },
            r == self.to_commit(offset),
    {
        if offset == 0 || offset == self.last_committed {
            None
        } else {
            Some(offset)
        }
    }

    /// Take in how the commit of `offset` went. After a failure it is due
    /// again.
    pub fn note(&mut self, offset: u64, committed: bool)
        ensures
            final(self).last_committed == if committed {
                offset
            } else {
                old(self).last_committed
            },
    {
        if committed {
            self.last_committed = offset;
        }
    }
}

/// The milliseconds between two commits where nothing else is set.
pub const DEFAULT_COMMIT_INTERVAL_MS: u64 = 5000;

/// The milliseconds between two looks at the source where nothing else is
/// set.
pub const DEFAULT_READINESS_POLL_MS: u64 = 2000;

/// The number that a setting gives; `default` where it gives none.
pub open spec fn number_or(setting: Option<&str>, default: nat) -> nat {
    match setting {
        Some(s) => parse_unsigned(s@, u64::MAX as nat).unwrap_or(default),
        None => default,
    }
}

fn number_from(setting: Option<&str>, default: u64) -> (r: u64)
    ensures
        r == number_or(setting, default as nat),
{
    match setting {
        Some(s) => match parse_number(s, u64::MAX) {
            Some(n) => n,
            None => default,
        },
        None => default,
    }
}

/// The milliseconds between two commits. Zero turns commits off.
pub fn commit_interval_from_env(setting: Option<&str>) -> (ms: u64)
    ensures
        ms == number_or(setting, DEFAULT_COMMIT_INTERVAL_MS as nat),
{
    number_from(setting, DEFAULT_COMMIT_INTERVAL_MS)
}

/// The milliseconds between two looks at the source. Zero turns them off.
pub fn readiness_poll_interval_from_env(setting: Option<&str>) -> (ms: u64)
    ensures
        ms == number_or(setting, DEFAULT_READINESS_POLL_MS as nat),
{
    number_from(setting, DEFAULT_READINESS_POLL_MS)
}

/// How many offsets a mirror may be behind and still be ready.
pub fn readiness_lag_tolerance_from_env(setting: Option<&str>) -> (n: u64)
    ensures
        n == number_or(setting, 0),
{
    number_from(setting, 0)
}

/// However acknowledgements arrive, what is committed never moves back.
pub proof fn law_acks_never_go_back(t: AckTracker, i: int, through: u64, before: u64, after: u64)
    requires
        0 <= i < t.destinations@.len(),
        is_furthest(before, t.destinations@),
        is_furthest(
            after,
            t.destinations@.update(
                i,
                DestAckSlot {
                    flushed_through: later(t.destinations@[i].flushed_through, through),
                    ..t.destinations@[i]
                },
            ),
        ),
    ensures
        before <= after,
        after == later(before, through),
{
    let d = t.destinations@;
    let e = d.update(
        i,
        DestAckSlot { flushed_through: later(d[i].flushed_through, through), ..d[i] },
    );
    if before > 0 {
        let j = choose|j: int| 0 <= j < d.len() && (#[trigger] d[j]).flushed_through == before;
        assert(e[j].flushed_through <= after);
    }
    assert(e[i].flushed_through <= after);
    assert(d[i].flushed_through <= before);
    if after > 0 {
        let k = choose|k: int| 0 <= k < e.len() && (#[trigger] e[k]).flushed_through == after;
        assert(d[k].flushed_through <= before);
    }
}

} // verus!
