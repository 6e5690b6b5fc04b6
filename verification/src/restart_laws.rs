//! What a restart finds, whatever a sink did before it.
use vstd::prelude::*;

use crate::chain::{
    all_fit, chain_position, ends_fit, entries, in_order, is_tmp, law_ordering_is_a_permutation,
    lemma_entries_fit, snapshot_position, BatchView, Order,
};
use crate::chain_laws::{
    after_last, law_flushed_batch_is_found, law_position_ignores_listing_order,
    law_position_is_after_the_last_batch, law_restart_reads_the_latest_snapshot,
    law_restart_resumes_after_flush, law_snapshots_ignore_listing_order,
    law_unfinished_batches_are_ignored, lemma_entry_count,
};
use crate::filesystem::{
    law_batch_names_are_free, law_flush_keeps_the_head, lemma_plain_extension, FilesystemSink,
    FlushPlan,
};
use crate::record::{records_view, RecordView};
use crate::snapshot::{law_stored_snapshot_loads_back, loaded, snapshot_fault};

verus! {

/// A file in a sink's directory: its name, and the records that reading it
/// gives.
pub struct StoredFile {
    pub name: Seq<char>,
    pub records: Seq<RecordView>,
}

/// The names in a directory.
pub open spec fn names_in(dir: Seq<StoredFile>) -> Seq<Seq<char>> {
    dir.map_values(|f: StoredFile| f.name)
}

/// What a sink did, or what happened to its directory.
pub enum DiskStep {
    /// It collected a record, or attended to the daily boundary.
    Collected,
    /// It moved up to where the source starts.
    Aligned,
    /// It stored a batch.
    Flushed(FlushPlan),
    /// An unfinished batch was left behind.
    Left(StoredFile),
}

/// Whether the step leads from one sink and directory to another.
pub open spec fn stepped(
    a: (FilesystemSink, Seq<StoredFile>),
    step: DiskStep,
    b: (FilesystemSink, Seq<StoredFile>),
) -> bool {
    match step {
        DiskStep::Collected => {
            &&& b.0.wf()
            &&& b.0 == (FilesystemSink {
                buffer: b.0.buffer,
                buffer_bytes: b.0.buffer_bytes,
                buffer_started: b.0.buffer_started,
                next_daily_unix: b.0.next_daily_unix,
                ..a.0
            })
            &&& b.1 == a.1
        },
        DiskStep::Aligned => {
            &&& a.0.compacted()
            &&& a.0.buffer@.len() == 0
            &&& a.0.durable_position <= b.0.durable_position
            &&& b.0 == (FilesystemSink { durable_position: b.0.durable_position, ..a.0 })
            &&& b.1 == a.1
        },
        DiskStep::Flushed(plan) => {
            &&& a.0.buffer@.len() > 0
            &&& a.0.plans(plan, &b.0)
            &&& b.0.wf()
            &&& b.0.buffer@.len() == 0
            &&& b.0 == (FilesystemSink {
                buffer: b.0.buffer,
                view: b.0.view,
                ..a.0
            }).flushed(plan.to)
            &&& b.1 == a.1.push(
                StoredFile { name: plan.name@, records: records_view(plan.records@) },
            )
        },
        DiskStep::Left(f) => is_tmp(f.name) && b.0 == a.0 && b.1 == a.1.push(f),
    }
}

/// Whether the steps lead from each sink and directory to the next.
pub open spec fn is_disk_history(
    states: Seq<(FilesystemSink, Seq<StoredFile>)>,
    steps: Seq<DiskStep>,
) -> bool
    decreases steps.len(),
{
    &&& states.len() == steps.len() + 1
    &&& steps.len() > 0 ==> {
        &&& is_disk_history(states.drop_last(), steps.drop_last())
        &&& stepped(states[steps.len() - 1], steps.last(), states.last())
    }
}

/// Whether reading the file with this name gives the snapshot `m`, without
/// a fault.
pub open spec fn holds_snapshot(
    dir: Seq<StoredFile>,
    name: Seq<char>,
    m: Map<Seq<char>, RecordView>,
) -> bool {
    &&& exists|i: int| 0 <= i < dir.len() && (#[trigger] dir[i]).name == name
    &&& forall|i: int|
        0 <= i < dir.len() && (#[trigger] dir[i]).name == name ==> loaded(dir[i].records) == m
            && forall|path: Seq<char>| #[trigger] snapshot_fault(path, dir[i].records) is None
}

/// Whether the directory is the one that the sink left: it shows the
/// position that the sink left behind and, with compaction, the latest
/// snapshot is the sink's. So it is of a sink that was just opened.
pub open spec fn matches_disk(s: FilesystemSink, dir: Seq<StoredFile>) -> bool {
    let names = names_in(dir);
    let ext = s.format.file_extension();
    &&& s.wf()
    &&& s.shown(names) == Ok::<int, Seq<char>>(s.stored_position as int)
    &&& all_fit(entries(names, ext)->Ok_0)
    &&& s.compacted() ==> match snapshot_position(names, ext)->Ok_0.1 {
        Some(latest) => !is_tmp(latest) && holds_snapshot(dir, latest, s.snapshot()),
        None => s.snapshot() == Map::<Seq<char>, RecordView>::empty(),
    }
}

proof fn lemma_flush_matches(
    a: (FilesystemSink, Seq<StoredFile>),
    plan: FlushPlan,
    b: (FilesystemSink, Seq<StoredFile>),
)
    requires
        matches_disk(a.0, a.1),
        stepped(a, DiskStep::Flushed(plan), b),
    ensures
        matches_disk(b.0, b.1),
{
    broadcast use vstd::seq_lib::group_to_multiset_ensures;

    let s = a.0;
    let ext = s.format.file_extension();
    let names = names_in(a.1);
    let name = plan.name@;
    let file = StoredFile { name, records: records_view(plan.records@) };
    let after = names_in(b.1);
    assert(after =~= names.push(name));
    assert(after.drop_last() =~= names);
    law_flush_keeps_the_head(s, plan, b.0);
    law_batch_names_are_free(s, plan, b.0, names);
    lemma_plain_extension(s.format);
    law_flushed_batch_is_found(plan.from, plan.to, ext);
    let found = entries(names, ext)->Ok_0;
    let batch = BatchView { from: plan.from, to: plan.to, name };
    assert(entries(after, ext) == Ok::<Seq<BatchView>, Seq<char>>(found.push(batch)));
    if s.compacted() {
        law_restart_reads_the_latest_snapshot(names, after, ext, plan.from, plan.to);
        let pairs = b.0.view->0.entries();
        assert forall|path: Seq<char>| #[trigger] snapshot_fault(path, file.records) is None by {
            law_stored_snapshot_loads_back(pairs, path);
        }
        law_stored_snapshot_loads_back(pairs, name);
        assert(loaded(file.records) == b.0.snapshot());
        assert(b.1[b.1.len() - 1] == file);
        assert forall|i: int| 0 <= i < b.1.len() && (#[trigger] b.1[i]).name == name implies b.1[i]
            == file by {
            if i < a.1.len() {
                assert(names[i] == name);
                assert(names.contains(name));
            }
        }
        assert(holds_snapshot(b.1, name, b.0.snapshot()));
    } else {
        law_restart_resumes_after_flush(names, after, ext, plan.from, plan.to);
    }
}

proof fn lemma_step_matches(
    a: (FilesystemSink, Seq<StoredFile>),
    step: DiskStep,
    b: (FilesystemSink, Seq<StoredFile>),
)
    requires
        matches_disk(a.0, a.1),
        stepped(a, step, b),
    ensures
        matches_disk(b.0, b.1),
{
    match step {
        DiskStep::Flushed(plan) => {
            lemma_flush_matches(a, plan, b);
        },
        DiskStep::Left(f) => {
            let names = names_in(a.1);
            let ext = a.0.format.file_extension();
            assert(names_in(b.1) =~= names.push(f.name));
            law_unfinished_batches_are_ignored(names, ext, f.name);
            if a.0.compacted() {
                if let Some(latest) = snapshot_position(names, ext)->Ok_0.1 {
                    let i = choose|i: int| 0 <= i < a.1.len() && (#[trigger] a.1[i]).name == latest;
                    assert(b.1[i].name == latest);
                    assert forall|j: int|
                        0 <= j < b.1.len() && (#[trigger] b.1[j]).name == latest implies loaded(
                        b.1[j].records,
                    ) == a.0.snapshot() && forall|path: Seq<char>| #[trigger]
                        snapshot_fault(path, b.1[j].records) is None by {
                        assert(b.1[j] == a.1[j]);
                    }
                }
            }
        },
        _ => {},
    }
}

proof fn lemma_history_matches(
    states: Seq<(FilesystemSink, Seq<StoredFile>)>,
    steps: Seq<DiskStep>,
)
    requires
        is_disk_history(states, steps),
        matches_disk(states[0].0, states[0].1),
    ensures
        matches_disk(states.last().0, states.last().1),
    decreases steps.len(),
{
    if steps.len() > 0 {
        let prior = states.drop_last();
        assert(prior[0] == states[0]);
        lemma_history_matches(prior, steps.drop_last());
        lemma_step_matches(prior.last(), steps.last(), states.last());
    }
}

/// Restart correctness: a sink may collect, store batches, follow a
/// trimmed source and leave unfinished batches behind, in any order and as
/// often as it likes. Whoever opens its directory then, in whatever order
/// it is listed, finds the offset after the last stored one, or zero where
/// nothing is stored. That is where the sink itself stood, unless it held
/// records that it had not stored, or had followed the source without
/// storing anything since. With compaction they also find, without a
/// fault, the snapshot that the sink had.
pub proof fn law_restart_resumes_after_any_history(
    states: Seq<(FilesystemSink, Seq<StoredFile>)>,
    steps: Seq<DiskStep>,
    listed: Seq<Seq<char>>,
)
    requires
        is_disk_history(states, steps),
        matches_disk(states[0].0, states[0].1),
        listed.to_multiset() == names_in(states.last().1).to_multiset(),
    ensures
        ({
            let s = states.last().0;
            let dir = states.last().1;
            let ext = s.format.file_extension();
            &&& s.shown(listed) == Ok::<int, Seq<char>>(s.stored_position as int)
            &&& after_last(entries(names_in(dir), ext)->Ok_0, s.stored_position as int)
            &&& s.buffer@.len() == 0 && s.durable_position == s.stored_position ==> s.shown(listed)
                == Ok::<int, Seq<char>>(s.head())
            &&& s.compacted() ==> match snapshot_position(listed, ext)->Ok_0.1 {
                Some(latest) => holds_snapshot(dir, latest, s.snapshot()),
                None => s.snapshot() == Map::<Seq<char>, RecordView>::empty(),
            }
        }),
{
    lemma_history_matches(states, steps);
    let s = states.last().0;
    let names = names_in(states.last().1);
    let ext = s.format.file_extension();
    law_position_is_after_the_last_batch(names, ext);
    if s.compacted() {
        law_snapshots_ignore_listing_order(names, listed, ext);
    } else {
        law_position_ignores_listing_order(names, listed, ext);
        assert(chain_position(listed, ext) == chain_position(names, ext));
    }
}

proof fn lemma_fault_ignores_path(p: Seq<char>, q: Seq<char>, rs: Seq<RecordView>)
    requires
        snapshot_fault(p, rs) is None,
    ensures
        snapshot_fault(q, rs) is None,
    decreases rs.len(),
{
    if rs.len() > 0 {
        lemma_fault_ignores_path(p, q, rs.drop_last());
    }
}

/// The latest snapshot is listed, and it is a finished one.
proof fn lemma_latest_is_listed(names: Seq<Seq<char>>, ext: Seq<char>)
    requires
        snapshot_position(names, ext) is Ok,
        snapshot_position(names, ext)->Ok_0.1 is Some,
        all_fit(entries(names, ext)->Ok_0),
    ensures
        names.contains(snapshot_position(names, ext)->Ok_0.1->0),
        !is_tmp(snapshot_position(names, ext)->Ok_0.1->0),
{
    broadcast use vstd::seq_lib::group_to_multiset_ensures;

    let s = entries(names, ext)->Ok_0;
    let sorted = in_order(Order::End, s);
    law_ordering_is_a_permutation(Order::End, s);
    if sorted.len() > 0 {
        let last = sorted[sorted.len() - 1];
        assert(s.contains(last));
        assert(s.to_multiset().count(last) > 0);
        lemma_entry_count(names, ext, last);
    }
}

/// A sink that was just opened matches its directory, so that what it does
/// then is such a history: the directory shows the position that it was
/// opened at, and with compaction the file that it was opened on, `latest`,
/// held its snapshot without a fault.
pub proof fn law_opened_sink_matches_its_directory(
    s: FilesystemSink,
    dir: Seq<StoredFile>,
    path: Seq<char>,
)
    requires
        s.wf(),
        s.shown(names_in(dir)) == Ok::<int, Seq<char>>(s.stored_position as int),
        ends_fit(names_in(dir), s.format.file_extension()),
        s.compacted() ==> match snapshot_position(
            names_in(dir),
            s.format.file_extension(),
        )->Ok_0.1 {
            Some(latest) => forall|i: int|
                0 <= i < dir.len() && (#[trigger] dir[i]).name == latest ==> loaded(dir[i].records)
                    == s.snapshot() && snapshot_fault(path, dir[i].records) is None,
            None => s.snapshot() == Map::<Seq<char>, RecordView>::empty(),
        },
    ensures
        matches_disk(s, dir),
{
    let names = names_in(dir);
    let ext = s.format.file_extension();
    lemma_entries_fit(names, ext);
    if s.compacted() {
        if let Some(latest) = snapshot_position(names, ext)->Ok_0.1 {
            lemma_latest_is_listed(names, ext);
            let k = names.index_of(latest);
            assert(dir[k].name == latest);
            assert forall|i: int| 0 <= i < dir.len() && (#[trigger] dir[i]).name == latest implies
                forall|q: Seq<char>| #[trigger] snapshot_fault(q, dir[i].records) is None by {
                assert forall|q: Seq<char>| #[trigger] snapshot_fault(
                    q,
                    dir[i].records,
                ) is None by {
                    lemma_fault_ignores_path(path, q, dir[i].records);
                }
            }
        }
    }
}

} // verus!
