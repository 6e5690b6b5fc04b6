//! The latest record of every key, in the order of keys.
use vstd::prelude::*;
use vstd::string::*;
use vstd::utf8::{decode_utf8, valid_utf8};

use crate::assoc::{
    as_map, has_key, lemma_insert_at, lemma_remove_at, lemma_update_inserts, place_of, unique_keys,
};
use crate::cache::has_text_key;
use crate::chain::FsError;
use crate::record::{records_view, Record, RecordView};
use crate::text::{lemma_text_lt_total, lemma_text_lt_trans, same_text, text_before, text_lt};
use crate::utf8::text_of_bytes;

verus! {

/// The latest record of every key.
pub struct Snapshot {
    entries: Vec<(String, Record)>,
}

spec fn pairs_of(s: Seq<(String, Record)>) -> Seq<(Seq<char>, RecordView)> {
    s.map_values(|e: (String, Record)| (e.0@, e.1@))
}

/// Whether the keys are in their order, none twice.
pub open spec fn keys_in_order(s: Seq<(Seq<char>, RecordView)>) -> bool {
    forall|i: int, j: int| 0 <= i < j < s.len() ==> text_lt(s[i].0, s[j].0)
}

/// Whether each record stands under its own key.
pub open spec fn keyed(s: Seq<(Seq<char>, RecordView)>) -> bool {
    forall|i: int|
        0 <= i < s.len() ==> has_text_key((#[trigger] s[i]).1) && decode_utf8(s[i].1.key->0)
            == s[i].0
}

impl Snapshot {
    /// The keys and their records, in the order of keys.
    pub closed spec fn entries(&self) -> Seq<(Seq<char>, RecordView)> {
        pairs_of(self.entries@)
    }

    /// The record of each key.
    pub open spec fn contents(&self) -> Map<Seq<char>, RecordView> {
        as_map(self.entries())
    }

    /// The keys are in their order, and each is the key of its record.
    pub open spec fn wf(&self) -> bool {
        keys_in_order(self.entries()) && keyed(self.entries())
    }

    proof fn lemma_unique(&self)
        requires
            self.wf(),
        ensures
            unique_keys(self.entries()),
    {
        let s = self.entries();
        assert forall|i: int, j: int| 0 <= i < j < s.len() implies s[i].0 != s[j].0 by {
            lemma_text_lt_total(s[i].0, s[j].0);
        }
    }

    /// A snapshot of nothing.
    pub fn new() -> (r: Self)
        ensures
            r.wf(),
            r.contents() == Map::<Seq<char>, RecordView>::empty(),
    {
        let r = Snapshot { entries: Vec::new() };
        assert(r.contents() =~= Map::empty());
        r
    }

    /// How many keys there are.
    pub fn len(&self) -> (n: usize)
        ensures
            n == self.entries().len(),
    {
        self.entries.len()
    }

    /// The place of the first key that does not come before `key`.
    fn place(&self, key: &str) -> (p: usize)
        requires
            self.wf(),
        ensures
            p <= self.entries.len(),
            forall|j: int| 0 <= j < p ==> text_lt((#[trigger] self.entries()[j]).0, key@),
            forall|j: int| p <= j < self.entries.len() ==> !text_lt((#[trigger] self.entries()[j]).0, key@),
    {
        let mut p: usize = 0;
        while p < self.entries.len() && text_before(self.entries[p].0.as_str(), key)
            invariant
                p <= self.entries.len(),
                forall|j: int| 0 <= j < p ==> text_lt((#[trigger] self.entries()[j]).0, key@),
            decreases self.entries.len() - p,
        {
            p += 1;
        }
        proof {
            let s = self.entries();
            assert forall|j: int| p <= j < self.entries.len() implies !text_lt(
                (#[trigger] s[j]).0,
                key@,
            ) by {
                if j > p && text_lt(s[j].0, key@) {
                    assert(text_lt(s[p as int].0, s[j].0));
                    lemma_text_lt_trans(s[p as int].0, s[j].0, key@);
                }
            }
        }
        p
    }

    /// Set the record of a key.
    pub fn put(&mut self, key: String, record: Record)
        requires
            old(self).wf(),
            has_text_key(record@),
            decode_utf8(record@.key->0) == key@,
        ensures
            final(self).wf(),
            final(self).contents() == old(self).contents().insert(key@, record@),
    {
        let ghost before = self.entries();
        let p = self.place(key.as_str());
        proof {
            self.lemma_unique();
        }
        if p < self.entries.len() && same_text(self.entries[p].0.as_str(), key.as_str()) {
            proof {
                lemma_update_inserts(before, p as int, record@);
            }
            self.entries.set(p, (key, record));
            assert(self.entries() =~= before.update(p as int, (before[p as int].0, record@)));
        } else {
            proof {
                assert(!has_key(before, key@)) by {
                    if has_key(before, key@) {
                        let j = place_of(before, key@);
                        assert(before[j].0 == key@);
                        lemma_text_lt_total(before[j].0, key@);
                        assert(j >= p);
                        if j > p {
                            assert(text_lt(before[p as int].0, before[j].0));
                            assert(!text_lt(before[p as int].0, key@));
                        }
                    }
                }
                lemma_insert_at(before, p as int, key@, record@);
            }
            self.entries.insert(p, (key, record));
            proof {
                let after = self.entries();
                assert(after =~= before.insert(p as int, (key@, record@)));
                assert forall|i: int| 0 <= i < after.len() implies has_text_key(
                    (#[trigger] after[i]).1,
                ) && decode_utf8(after[i].1.key->0) == after[i].0 by {
                    if i != p {
                        assert(after[i] == before[if i < p { i } else { i - 1 }]);
                    }
                }
                assert forall|i: int, j: int| 0 <= i < j < after.len() implies text_lt(
                    after[i].0,
                    after[j].0,
                ) by {
                    let si = if i < p { i } else { i - 1 };
                    let sj = if j < p { j } else { j - 1 };
                    if i != p && j != p {
                        assert(text_lt(before[si].0, before[sj].0));
                    } else if i == p {
                        assert(!text_lt(before[sj].0, key@));
                        lemma_text_lt_total(before[sj].0, key@);
                        assert(has_key(before, before[sj].0));
                    } else {
                        assert(text_lt(before[si].0, key@));
                    }
                }
            }
        }
    }

    /// Drop a key.
    pub fn remove(&mut self, key: &str)
        requires
            old(self).wf(),
        ensures
            final(self).wf(),
            final(self).contents() == old(self).contents().remove(key@),
    {
        let ghost before = self.entries();
        let p = self.place(key);
        proof {
            self.lemma_unique();
        }
        if p < self.entries.len() && same_text(self.entries[p].0.as_str(), key) {
            proof {
                lemma_remove_at(before, p as int);
            }
            self.entries.remove(p);
            proof {
                let after = self.entries();
                assert(after =~= before.remove(p as int));
                assert forall|i: int| 0 <= i < after.len() implies has_text_key(
                    (#[trigger] after[i]).1,
                ) && decode_utf8(after[i].1.key->0) == after[i].0 by {
                    assert(after[i] == before[if i < p { i } else { i + 1 }]);
                }
                assert forall|i: int, j: int| 0 <= i < j < after.len() implies text_lt(
                    after[i].0,
                    after[j].0,
                ) by {
                    let si = if i < p { i } else { i + 1 };
                    let sj = if j < p { j } else { j + 1 };
                    assert(text_lt(before[si].0, before[sj].0));
                }
            }
        } else {
            proof {
                assert(!has_key(before, key@)) by {
                    if has_key(before, key@) {
                        let j = place_of(before, key@);
                        assert(before[j].0 == key@);
                        lemma_text_lt_total(before[j].0, key@);
                        if j > p {
                            assert(text_lt(before[p as int].0, before[j].0));
                            assert(!text_lt(before[p as int].0, key@));
                        }
                    }
                }
                assert(as_map(before).remove(key@) =~= as_map(before));
            }
        }
    }

    /// The records, in the order of their keys.
    pub fn records(&self) -> (r: Vec<Record>)
        ensures
            records_view(r@) == self.entries().map_values(|e: (Seq<char>, RecordView)| e.1),
    {
        let mut r: Vec<Record> = Vec::new();
        let mut i: usize = 0;
        while i < self.entries.len()
            invariant
                i <= self.entries.len(),
                r.len() == i,
                forall|j: int| 0 <= j < i ==> (#[trigger] r@[j])@ == self.entries@[j].1@,
            decreases self.entries.len() - i,
        {
            r.push(self.entries[i].1.clone());
            i += 1;
        }
        assert(records_view(r@) =~= self.entries().map_values(|e: (Seq<char>, RecordView)| e.1));
        r
    }

    /// Take in newer records, in their order. A record without a value
    /// drops its key.
    pub fn merge(&mut self, records: Vec<Record>)
        requires
            old(self).wf(),
            forall|i: int| 0 <= i < records.len() ==> has_text_key((#[trigger] records@[i])@),
        ensures
            final(self).wf(),
            final(self).contents() == merged(old(self).contents(), records_view(records@)),
    {
        let ghost rs = records_view(records@);
        let ghost start = self.contents();
        assert(rs.take(0) =~= seq![]);
        for rec in it: records
            invariant
                it.seq() == records@,
                rs == records_view(records@),
                self.wf(),
                forall|i: int| 0 <= i < records.len() ==> has_text_key((#[trigger] records@[i])@),
                self.contents() == merged(start, rs.take(it.index())),
        {
            let ghost i = it.index();
            proof {
                assert(rs.take(i + 1).drop_last() =~= rs.take(i));
                assert(rs.take(i + 1).last() == rec@);
                assert(has_text_key(records@[i]@));
            }
            let key: String = match &rec.key {
                Some(k) => match text_of_bytes(k.as_slice()) {
                    Ok(s) => s.to_owned(),
                    Err(_) => {
                        assert(false);
                        String::new()
                    },
                },
                None => {
                    assert(false);
                    String::new()
                },
            };
            if rec.value.is_none() {
                self.remove(key.as_str());
            } else {
                self.put(key, rec);
            }
        }
        assert(rs.take(rs.len() as int) =~= rs);
    }
}

/// The contents after newer records.
pub open spec fn merged(m: Map<Seq<char>, RecordView>, rs: Seq<RecordView>) -> Map<
    Seq<char>,
    RecordView,
>
    decreases rs.len(),
{
    if rs.len() == 0 {
        m
    } else {
        let before = merged(m, rs.drop_last());
        let r = rs.last();
        let key = decode_utf8(r.key->0);
        if r.value is None {
            before.remove(key)
        } else {
            before.insert(key, r)
        }
    }
}

/// What is wrong with the records of a stored snapshot.
pub open spec fn snapshot_fault(path: Seq<char>, rs: Seq<RecordView>) -> Option<Seq<char>>
    decreases rs.len(),
{
    if rs.len() == 0 {
        None
    } else {
        let before = snapshot_fault(path, rs.drop_last());
        if before is Some {
            before
        } else if rs.last().key is None {
            Some(path + ": null key in compacted snapshot"@)
        } else if !valid_utf8(rs.last().key->0) {
            Some(path + ": non-UTF-8 key in compacted snapshot"@)
        } else {
            None
        }
    }
}

/// The contents of a stored snapshot: the last record of each key.
pub open spec fn loaded(rs: Seq<RecordView>) -> Map<Seq<char>, RecordView>
    decreases rs.len(),
{
    if rs.len() == 0 {
        Map::empty()
    } else {
        loaded(rs.drop_last()).insert(decode_utf8(rs.last().key->0), rs.last())
    }
}

proof fn lemma_snapshot_fault_stays(path: Seq<char>, rs: Seq<RecordView>, i: int)
    requires
        0 <= i <= rs.len(),
        snapshot_fault(path, rs.take(i)) is Some,
    ensures
        snapshot_fault(path, rs) == snapshot_fault(path, rs.take(i)),
    decreases rs.len() - i,
{
    if i < rs.len() {
        assert(rs.take(i + 1).drop_last() =~= rs.take(i));
        lemma_snapshot_fault_stays(path, rs, i + 1);
    } else {
        assert(rs.take(i) =~= rs);
    }
}

/// Read a stored snapshot; `path` names it in errors. Every key must be
/// text.
pub fn load_view(path: &str, records: Vec<Record>) -> (r: Result<Snapshot, FsError>)
    ensures
        match snapshot_fault(path@, records_view(records@)) {
            Some(f) => r matches Err(FsError::CorruptChain { msg }) && msg@ == f,
            None => r matches Ok(v) && v.wf() && v.contents() == loaded(records_view(records@)),
        },
{
    let ghost rs = records_view(records@);
    let mut view = Snapshot::new();
    assert(rs.take(0) =~= seq![]);
    for rec in it: records
        invariant
            it.seq() == records@,
            rs == records_view(records@),
            view.wf(),
            snapshot_fault(path@, rs.take(it.index())) is None,
            view.contents() == loaded(rs.take(it.index())),
    {
        let ghost i = it.index();
        proof {
            assert(rs.take(i + 1).drop_last() =~= rs.take(i));
            assert(rs.take(i + 1).last() == rec@);
        }
        let key: String = match &rec.key {
            None => {
                proof {
                    lemma_snapshot_fault_stays(path@, rs, i + 1);
                }
                return Err(
                    FsError::CorruptChain {
                        msg: path.to_owned().concat(": null key in compacted snapshot"),
                    },
                );
            },
            Some(k) => match text_of_bytes(k.as_slice()) {
                Ok(s) => s.to_owned(),
                Err(_) => {
                    proof {
                        lemma_snapshot_fault_stays(path@, rs, i + 1);
                    }
                    return Err(
                        FsError::CorruptChain {
                            msg: path.to_owned().concat(": non-UTF-8 key in compacted snapshot"),
                        },
                    );
                },
            },
        };
        view.put(key, rec);
    }
    assert(rs.take(rs.len() as int) =~= rs);
    Ok(view)
}

/// The key of the last record with a given key decides: it is in the
/// snapshot exactly if that record has a value, and then with that record.
pub proof fn law_latest_record_wins(m: Map<Seq<char>, RecordView>, rs: Seq<RecordView>, i: int)
    requires
        0 <= i < rs.len(),
        forall|j: int|
            i < j < rs.len() ==> decode_utf8((#[trigger] rs[j]).key->0) != decode_utf8(
                rs[i].key->0,
            ),
    ensures
        ({
            let key = decode_utf8(rs[i].key->0);
            let after = merged(m, rs);
            &&& after.dom().contains(key) <==> rs[i].value is Some
            &&& rs[i].value is Some ==> after[key] == rs[i]
        }),
    decreases rs.len(),
{
    if i < rs.len() - 1 {
        let init = rs.drop_last();
        assert forall|j: int| i < j < init.len() implies decode_utf8((#[trigger] init[j]).key->0)
            != decode_utf8(init[i].key->0) by {
            assert(init[j] == rs[j]);
        }
        law_latest_record_wins(m, init, i);
        assert(decode_utf8(rs[rs.len() - 1].key->0) != decode_utf8(rs[i].key->0));
    }
}

/// A key that no newer record has keeps its record.
pub proof fn law_untouched_keys_stay(
    m: Map<Seq<char>, RecordView>,
    rs: Seq<RecordView>,
    key: Seq<char>,
)
    requires
        forall|j: int| 0 <= j < rs.len() ==> decode_utf8((#[trigger] rs[j]).key->0) != key,
    ensures
        merged(m, rs).dom().contains(key) <==> m.dom().contains(key),
        m.dom().contains(key) ==> merged(m, rs)[key] == m[key],
    decreases rs.len(),
{
    if rs.len() > 0 {
        let init = rs.drop_last();
        assert forall|j: int| 0 <= j < init.len() implies decode_utf8((#[trigger] init[j]).key->0)
            != key by {
            assert(init[j] == rs[j]);
        }
        law_untouched_keys_stay(m, init, key);
        assert(decode_utf8(rs[rs.len() - 1].key->0) != key);
    }
}

/// Taking in records in two portions is taking them in at once: what a
/// snapshot holds does not depend on when it was stored.
pub proof fn law_merging_is_incremental(
    m: Map<Seq<char>, RecordView>,
    a: Seq<RecordView>,
    b: Seq<RecordView>,
)
    ensures
        merged(merged(m, a), b) == merged(m, a + b),
    decreases b.len(),
{
    if b.len() > 0 {
        law_merging_is_incremental(m, a, b.drop_last());
        assert((a + b).drop_last() =~= a + b.drop_last());
        assert((a + b).last() == b.last());
    } else {
        assert(a + b =~= a);
    }
}

/// A stored snapshot is loaded as it was: the records of a sound snapshot
/// have no fault, and loading them gives its contents.
pub proof fn law_stored_snapshot_loads_back(s: Seq<(Seq<char>, RecordView)>, path: Seq<char>)
    requires
        keys_in_order(s),
        keyed(s),
    ensures
        snapshot_fault(path, s.map_values(|e: (Seq<char>, RecordView)| e.1)) is None,
        loaded(s.map_values(|e: (Seq<char>, RecordView)| e.1)) == as_map(s),
    decreases s.len(),
{
    let rs = s.map_values(|e: (Seq<char>, RecordView)| e.1);
    if s.len() > 0 {
        let init = s.drop_last();
        assert(keys_in_order(init)) by {
            assert forall|i: int, j: int| 0 <= i < j < init.len() implies text_lt(
                init[i].0,
                init[j].0,
            ) by {
                assert(text_lt(s[i].0, s[j].0));
            }
        }
        assert(keyed(init)) by {
            assert forall|i: int| 0 <= i < init.len() implies has_text_key((#[trigger] init[i]).1)
                && decode_utf8(init[i].1.key->0) == init[i].0 by {
                assert(init[i] == s[i]);
            }
        }
        law_stored_snapshot_loads_back(init, path);
        assert(rs.drop_last() =~= init.map_values(|e: (Seq<char>, RecordView)| e.1));
        let last = s[s.len() - 1];
        assert(has_text_key(last.1));
        assert forall|i: int, j: int| 0 <= i < j < init.len() implies init[i].0 != init[j].0 by {
            assert(text_lt(s[i].0, s[j].0));
            lemma_text_lt_total(s[i].0, s[j].0);
        }
        assert(!has_key(init, last.0)) by {
            if has_key(init, last.0) {
                let i = place_of(init, last.0);
                assert(init[i].0 == last.0);
                assert(text_lt(s[i].0, s[s.len() - 1].0));
                lemma_text_lt_total(s[i].0, last.0);
            }
        }
        crate::assoc::lemma_push_inserts(init, last.0, last.1);
        assert(init.push(last) =~= s);
    } else {
        assert(rs =~= seq![]);
        assert(as_map(s) =~= Map::empty());
    }
}

} // verus!
