//! The chain of stored batches, as a directory listing shows it.
//!
//! A mirror that keeps every record needs a chain without gaps from offset
//! zero on. A mirror that keeps snapshots may miss old ones, but no two
//! may overlap. Either way the listing alone says where to resume.
use vstd::prelude::*;
use vstd::string::*;

use crate::naming::{named_range, parse_filename};
use crate::text::{chars_of, dec, decimal, same_text, string_of};

verus! {

/// Why the stored batches cannot be used.
#[derive(Debug, PartialEq, Eq)]
pub enum FsError {
    /// The directory or a file in it cannot be read.
    Io { path: String, reason: String },
    CorruptChain { msg: String },
}

impl FsError {
    pub open spec fn text(&self) -> Seq<char> {
        match self {
            FsError::Io { path, reason } => "filesystem io "@ + path@ + ": "@ + reason@,
            FsError::CorruptChain { msg } => "destination chain is corrupt: "@ + msg@,
        }
    }

    /// The error in words.
    pub fn message(&self) -> (r: String)
        ensures
            r@ == self.text(),
    {
        match self {
            FsError::Io { path, reason } => "filesystem io ".to_owned().concat(
                path.as_str(),
            ).concat(": ").concat(reason.as_str()),
            FsError::CorruptChain { msg } => "destination chain is corrupt: ".to_owned().concat(
                msg.as_str(),
            ),
        }
    }
}

/// A stored batch.
#[derive(Debug, PartialEq, Eq)]
pub struct BatchFile {
    pub from: u64,
    pub to: u64,
    pub name: String,
}

/// The contents of a stored batch's entry.
pub struct BatchView {
    pub from: u64,
    pub to: u64,
    pub name: Seq<char>,
}

impl View for BatchFile {
    type V = BatchView;

    open spec fn view(&self) -> BatchView {
        BatchView { from: self.from, to: self.to, name: self.name@ }
    }
}

/// The entries of a list of batches.
pub open spec fn batches(v: Seq<BatchFile>) -> Seq<BatchView> {
    v.map_values(|f: BatchFile| f@)
}

/// The names in a listing.
pub open spec fn texts(names: Seq<String>) -> Seq<Seq<char>> {
    names.map_values(|n: String| n@)
}

/// Whether `.tmp.` stands at place `i`.
pub open spec fn tmp_at(name: Seq<char>, i: int) -> bool {
    0 <= i && i + 5 <= name.len() && name[i] == '.' && name[i + 1] == 't' && name[i + 2] == 'm'
        && name[i + 3] == 'p' && name[i + 4] == '.'
}

/// Whether the name is that of an unfinished batch: `.tmp.` occurs in it.
pub open spec fn is_tmp(name: Seq<char>) -> bool {
    exists|i: int| #[trigger] tmp_at(name, i)
}

/// What stands after the last dot, if there is one.
pub open spec fn extension(name: Seq<char>) -> Option<Seq<char>>
    decreases name.len(),
{
    if name.len() == 0 {
        None
    } else if name.last() == '.' {
        Some(seq![])
    } else {
        match extension(name.drop_last()) {
            Some(e) => Some(e.push(name.last())),
            None => None,
        }
    }
}

/// Whether the name is that of a batch in another format.
pub open spec fn is_foreign(name: Seq<char>, ext: Seq<char>) -> bool {
    extension(name) matches Some(other) && other != ext && named_range(name, other) is Some
}

/// What a name in the listing stands for: a batch, nothing, or a fault.
pub open spec fn entry(name: Seq<char>, ext: Seq<char>) -> Result<Option<BatchView>, Seq<char>> {
    if is_tmp(name) {
        Ok(None)
    } else if is_foreign(name, ext) {
        Err(
            name + ": extension '"@ + extension(name)->0
                + "' does not match configured format '"@ + ext + "'"@,
        )
    } else {
        match named_range(name, ext) {
            None => Ok(None),
            Some((from, to)) => if to < from {
                Err(name + ": to < from"@)
            } else {
                Ok(Some(BatchView { from, to, name }))
            },
        }
    }
}

/// The batches in a listing, in its order, or its first fault.
pub open spec fn entries(names: Seq<Seq<char>>, ext: Seq<char>) -> Result<
    Seq<BatchView>,
    Seq<char>,
>
    decreases names.len(),
{
    if names.len() == 0 {
        Ok(seq![])
    } else {
        match entries(names.drop_last(), ext) {
            Err(e) => Err(e),
            Ok(s) => match entry(names.last(), ext) {
                Err(e) => Err(e),
                Ok(None) => Ok(s),
                Ok(Some(b)) => Ok(s.push(b)),
            },
        }
    }
}

/// What batches are put in order by.
#[derive(Clone, Copy)]
pub enum Order {
    /// Where they start, then where they end.
    Range,
    /// Where they end.
    End,
    /// Where they start.
    Start,
}

pub open spec fn precedes(o: Order, a: BatchView, b: BatchView) -> bool {
    match o {
        Order::Range => a.from < b.from || (a.from == b.from && a.to < b.to),
        Order::End => a.to < b.to,
        Order::Start => a.from < b.from,
    }
}

/// `s` with `x` put in behind everything that `x` does not precede.
pub open spec fn put_in(o: Order, s: Seq<BatchView>, x: BatchView) -> Seq<BatchView>
    decreases s.len(),
{
    if s.len() == 0 || !precedes(o, x, s.last()) {
        s.push(x)
    } else {
        put_in(o, s.drop_last(), x).push(s.last())
    }
}

/// `s` in order; what comes out even keeps its order.
pub open spec fn in_order(o: Order, s: Seq<BatchView>) -> Seq<BatchView>
    decreases s.len(),
{
    if s.len() == 0 {
        s
    } else {
        put_in(o, in_order(o, s.drop_last()), s.last())
    }
}

/// How far batches in order reach without a gap or an overlap, starting
/// at `next`.
pub open spec fn reach(s: Seq<BatchView>, next: int) -> Result<int, Seq<char>>
    decreases s.len(),
{
    if s.len() == 0 {
        Ok(next)
    } else if s[0].from != next {
        Err(
            "gap or overlap in chain: expected from="@ + dec(next as nat) + ", found "@ + dec(
                s[0].from as nat,
            ) + "-"@ + dec(s[0].to as nat),
        )
    } else {
        reach(s.skip(1), s[0].to + 1)
    }
}

/// Where the last of batches in order ends, unless two overlap.
pub open spec fn last_end(s: Seq<BatchView>, prev: Option<u64>) -> Result<Option<u64>, Seq<char>>
    decreases s.len(),
{
    if s.len() == 0 {
        Ok(prev)
    } else if prev is Some && s[0].from <= prev->0 {
        Err(
            "overlap in compaction chain: "@ + dec(s[0].from as nat) + "-"@ + dec(s[0].to as nat)
                + " overlaps prior to="@ + dec(prev->0 as nat),
        )
    } else {
        last_end(s.skip(1), Some(s[0].to))
    }
}

/// The position that a listing without gaps shows.
pub open spec fn chain_position(names: Seq<Seq<char>>, ext: Seq<char>) -> Result<int, Seq<char>> {
    match entries(names, ext) {
        Err(e) => Err(e),
        Ok(s) => reach(in_order(Order::Range, s), 0),
    }
}

/// The position that a listing of snapshots shows, and the latest one.
pub open spec fn snapshot_position(names: Seq<Seq<char>>, ext: Seq<char>) -> Result<
    (int, Option<Seq<char>>),
    Seq<char>,
> {
    match entries(names, ext) {
        Err(e) => Err(e),
        Ok(s) => {
            let sorted = in_order(Order::End, s);
            match last_end(sorted, None) {
                Err(e) => Err(e),
                Ok(None) => Ok((0, None)),
                Ok(Some(to)) => Ok((to + 1, Some(sorted.last().name))),
            }
        },
    }
}

/// Whether the offset after every batch has a number.
pub open spec fn ends_fit(names: Seq<Seq<char>>, ext: Seq<char>) -> bool {
    forall|i: int|
        0 <= i < names.len() ==> (named_range(#[trigger] names[i], ext) matches Some((from, to))
            ==> to < u64::MAX)
}

/// Whether no name in the listing claims the largest offset.
pub fn listing_fits(names: &Vec<String>, ext: &str) -> (r: bool)
    ensures
        r == ends_fit(texts(names@), ext@),
{
    let mut i: usize = 0;
    while i < names.len()
        invariant
            i <= names.len(),
            forall|j: int|
                0 <= j < i ==> (named_range(#[trigger] texts(names@)[j], ext@) matches Some(
                    (from, to),
                ) ==> to < u64::MAX),
        decreases names.len() - i,
    {
        assert(texts(names@)[i as int] == names@[i as int]@);
        if let Some((_, to)) = parse_filename(names[i].as_str(), ext) {
            if to == u64::MAX {
                return false;
            }
        }
        i += 1;
    }
    true
}

fn name_is_tmp(name: &str) -> (r: bool)
    ensures
        r == is_tmp(name@),
{
    let v = chars_of(name);
    let mut i: usize = 0;
    while i < v.len()
        invariant
            i <= v.len(),
            v@ == name@,
            forall|j: int| 0 <= j < i ==> !#[trigger] tmp_at(name@, j),
        decreases v.len() - i,
    {
        if v.len() - i >= 5 && v[i] == '.' && v[i + 1] == 't' && v[i + 2] == 'm' && v[i + 3] == 'p'
            && v[i + 4] == '.' {
            assert(tmp_at(name@, i as int));
            return true;
        }
        assert(!tmp_at(name@, i as int));
        i += 1;
    }
    false
}

/// What stands after the last dot of a name.
fn file_extension(name: &str) -> (r: Option<String>)
    ensures
        r is Some <==> extension(name@) is Some,
        r matches Some(e) ==> extension(name@) == Some(e@),
{
    let v = chars_of(name);
    let mut tail: Option<Vec<char>> = None;
    let mut i: usize = 0;
    while i < v.len()
        invariant
            i <= v.len(),
            v@ == name@,
            tail is Some <==> extension(name@.take(i as int)) is Some,
            tail matches Some(e) ==> extension(name@.take(i as int)) == Some(e@),
        decreases v.len() - i,
    {
        assert(name@.take(i + 1).drop_last() =~= name@.take(i as int));
        assert(name@.take(i + 1).last() == v@[i as int]);
        if v[i] == '.' {
            let empty: Vec<char> = Vec::new();
            assert(empty@ =~= seq![]);
            tail = Some(empty);
        } else if let Some(mut e) = tail {
            e.push(v[i]);
            tail = Some(e);
        }
        i += 1;
    }
    assert(name@.take(i as int) =~= name@);
    match tail {
        Some(e) => Some(string_of(&e)),
        None => None,
    }
}

/// What one name in the listing stands for.
fn read_entry(name: &str, ext: &str) -> (r: Result<Option<BatchFile>, FsError>)
    ensures
        match (r, entry(name@, ext@)) {
            (Ok(Some(f)), Ok(Some(b))) => f@ == b,
            (Ok(None), Ok(None)) => true,
            (Err(FsError::CorruptChain { msg }), Err(e)) => msg@ == e,
            _ => false,
        },
{
    if name_is_tmp(name) {
        return Ok(None);
    }
    if let Some(other) = file_extension(name) {
        if !same_text(other.as_str(), ext) && parse_filename(name, other.as_str()).is_some() {
            return Err(
                FsError::CorruptChain {
                    msg: name.to_owned().concat(": extension '").concat(other.as_str()).concat(
                        "' does not match configured format '",
                    ).concat(ext).concat("'"),
                },
            );
        }
    }
    match parse_filename(name, ext) {
        None => Ok(None),
        Some((from, to)) => if to < from {
            Err(FsError::CorruptChain { msg: name.to_owned().concat(": to < from") })
        } else {
            Ok(Some(BatchFile { from, to, name: name.to_owned() }))
        },
    }
}

/// Put `x` in its place.
fn put(o: Order, v: &mut Vec<BatchFile>, x: BatchFile)
    ensures
        batches(final(v)@) == put_in(o, batches(old(v)@), x@),
{
    let ghost before = batches(v@);
    let mut p: usize = v.len();
    assert(before.take(p as int) =~= before);
    assert(put_in(o, before, x@) =~= put_in(o, before.take(p as int), x@) + before.skip(p as int));
    while p > 0 && comes_before(o, &x, &v[p - 1])
        invariant
            p <= v.len(),
            before == batches(v@),
            put_in(o, before, x@) == put_in(o, before.take(p as int), x@) + before.skip(p as int),
        decreases p,
    {
        proof {
            let head = before.take(p as int);
            assert(head.last() == before[p - 1]);
            assert(head.drop_last() =~= before.take(p - 1));
            assert(put_in(o, head, x@) == put_in(o, before.take(p - 1), x@).push(before[p - 1]));
            assert(put_in(o, before.take(p - 1), x@).push(before[p - 1]) + before.skip(p as int)
                =~= put_in(o, before.take(p - 1), x@) + before.skip(p - 1));
        }
        p -= 1;
    }
    proof {
        let head = before.take(p as int);
        if p > 0 {
            assert(head.last() == before[p - 1]);
        }
        assert(put_in(o, head, x@) == head.push(x@));
    }
    v.insert(p, x);
    assert(batches(v@) =~= before.take(p as int).push(x@) + before.skip(p as int));
}

fn comes_before(o: Order, a: &BatchFile, b: &BatchFile) -> (r: bool)
    ensures
        r == precedes(o, a@, b@),
{
    match o {
        Order::Range => a.from < b.from || (a.from == b.from && a.to < b.to),
        Order::End => a.to < b.to,
        Order::Start => a.from < b.from,
    }
}

/// The batches in a listing, in order.
fn collect(names: &Vec<String>, ext: &str, o: Order) -> (r: Result<Vec<BatchFile>, FsError>)
    ensures
        match (r, entries(texts(names@), ext@)) {
            (Ok(v), Ok(s)) => batches(v@) == in_order(o, s),
            (Err(FsError::CorruptChain { msg }), Err(e)) => msg@ == e,
            _ => false,
        },
{
    let ghost all = texts(names@);
    let mut out: Vec<BatchFile> = Vec::new();
    let mut i: usize = 0;
    assert(all.take(0) =~= seq![]);
    assert(batches(out@) =~= seq![]);
    while i < names.len()
        invariant
            i <= names.len(),
            all == texts(names@),
            entries(all.take(i as int), ext@) matches Ok(s) && batches(out@) == in_order(o, s),
        decreases names.len() - i,
    {
        let ghost s = entries(all.take(i as int), ext@)->Ok_0;
        proof {
            assert(all.take(i + 1).drop_last() =~= all.take(i as int));
            assert(all.take(i + 1).last() == names@[i as int]@);
        }
        match read_entry(names[i].as_str(), ext) {
            Err(e) => {
                proof {
                    lemma_entries_fault(all, ext@, i + 1);
                }
                return Err(e);
            },
            Ok(None) => {},
            Ok(Some(f)) => {
                put(o, &mut out, f);
                assert(s.push(f@).drop_last() =~= s);
            },
        }
        i += 1;
    }
    assert(all.take(i as int) =~= all);
    Ok(out)
}

/// A fault in the first part of a listing is the fault of the listing.
proof fn lemma_entries_fault(names: Seq<Seq<char>>, ext: Seq<char>, i: int)
    requires
        0 <= i <= names.len(),
        entries(names.take(i), ext) is Err,
    ensures
        entries(names, ext) == entries(names.take(i), ext),
    decreases names.len() - i,
{
    if i < names.len() {
        assert(names.take(i + 1).drop_last() =~= names.take(i));
        lemma_entries_fault(names, ext, i + 1);
    } else {
        assert(names.take(i) =~= names);
    }
}

/// Every batch in a listing ends where its name says.
pub proof fn lemma_entries_fit(names: Seq<Seq<char>>, ext: Seq<char>)
    requires
        ends_fit(names, ext),
        entries(names, ext) is Ok,
    ensures
        all_fit(entries(names, ext)->Ok_0),
    decreases names.len(),
{
    if names.len() > 0 {
        let init = names.drop_last();
        assert forall|i: int| 0 <= i < init.len() implies (named_range(
            #[trigger] init[i],
            ext,
        ) matches Some((from, to)) ==> to < u64::MAX) by {
            assert(init[i] == names[i]);
        }
        lemma_entries_fit(init, ext);
        assert(names.last() == names[names.len() - 1]);
    }
}

/// Whether every batch is one, and the offset after it has a number.
pub open spec fn all_fit(s: Seq<BatchView>) -> bool {
    forall|i: int| 0 <= i < s.len() ==> (#[trigger] s[i]).from <= s[i].to && s[i].to < u64::MAX
}

proof fn lemma_put_in(o: Order, s: Seq<BatchView>, x: BatchView)
    ensures
        put_in(o, s, x).to_multiset() == s.to_multiset().insert(x),
        put_in(o, s, x).len() == s.len() + 1,
        ordered(o, s) ==> ordered(o, put_in(o, s, x)),
        forall|i: int|
            0 <= i < put_in(o, s, x).len() ==> #[trigger] put_in(o, s, x)[i] == x || s.contains(
                put_in(o, s, x)[i],
            ),
    decreases s.len(),
{
    broadcast use vstd::seq_lib::group_to_multiset_ensures;

    if s.len() == 0 || !precedes(o, x, s.last()) {
        let r = s.push(x);
        assert forall|i: int| 0 <= i < r.len() implies #[trigger] r[i] == x || s.contains(r[i]) by {
            if i < s.len() {
                assert(s[i] == r[i]);
            }
        }
        if ordered(o, s) {
            assert forall|i: int, j: int| 0 <= i < j < r.len() implies !precedes(o, r[j], r[i]) by {
                if j < s.len() {
                    assert(!precedes(o, s[j], s[i]));
                } else if i < s.len() - 1 {
                    assert(!precedes(o, s[s.len() - 1], s[i]));
                }
            }
        }
    } else {
        let init = s.drop_last();
        lemma_put_in(o, init, x);
        let r = put_in(o, init, x);
        assert(s =~= init.push(s.last()));
        assert(r.push(s.last()).to_multiset() =~= s.to_multiset().insert(x));
        let t = r.push(s.last());
        assert forall|i: int| 0 <= i < t.len() implies #[trigger] t[i] == x || s.contains(t[i]) by {
            if i < r.len() {
                assert(t[i] == r[i]);
                if r[i] != x {
                    let j = init.index_of(r[i]);
                    assert(s[j] == r[i]);
                }
            } else {
                assert(s[s.len() - 1] == t[i]);
            }
        }
        if ordered(o, s) {
            assert forall|i: int, j: int| 0 <= i < j < init.len() implies !precedes(
                o,
                init[j],
                init[i],
            ) by {
                assert(!precedes(o, s[j], s[i]));
            }
            assert forall|i: int, j: int| 0 <= i < j < t.len() implies !precedes(o, t[j], t[i]) by {
                if j < r.len() {
                    assert(t[i] == r[i] && t[j] == r[j]);
                } else {
                    assert(t[j] == s.last());
                    assert(t[i] == r[i]);
                    if r[i] != x {
                        let k = init.index_of(r[i]);
                        assert(!precedes(o, s[s.len() - 1], s[k]));
                    }
                }
            }
        }
    }
}

/// Whether nothing stands behind what it precedes.
pub open spec fn ordered(o: Order, s: Seq<BatchView>) -> bool {
    forall|i: int, j: int| 0 <= i < j < s.len() ==> !precedes(o, s[j], s[i])
}

/// Putting batches in order loses none, adds none, and orders them.
pub proof fn law_ordering_is_a_permutation(o: Order, s: Seq<BatchView>)
    ensures
        in_order(o, s).to_multiset() == s.to_multiset(),
        in_order(o, s).len() == s.len(),
        ordered(o, in_order(o, s)),
        forall|i: int| 0 <= i < s.len() ==> s.contains(#[trigger] in_order(o, s)[i]),
    decreases s.len(),
{
    broadcast use vstd::seq_lib::group_to_multiset_ensures;

    if s.len() > 0 {
        let init = s.drop_last();
        law_ordering_is_a_permutation(o, init);
        lemma_put_in(o, in_order(o, init), s.last());
        assert(s =~= init.push(s.last()));
        let r = in_order(o, s);
        assert forall|i: int| 0 <= i < s.len() implies s.contains(#[trigger] r[i]) by {
            if r[i] == s.last() {
                assert(s[s.len() - 1] == r[i]);
            } else {
                let p = in_order(o, init);
                assert(p.contains(r[i]));
                let k = p.index_of(r[i]);
                assert(init.contains(p[k]));
                let q = init.index_of(p[k]);
                assert(s[q] == r[i]);
            }
        }
    }
}

/// The position that a listing without gaps shows: the offset after the
/// last stored one.
pub fn scan_validate(names: &Vec<String>, ext: &str) -> (r: Result<u64, FsError>)
    requires
        ends_fit(texts(names@), ext@),
    ensures
        match (r, chain_position(texts(names@), ext@)) {
            (Ok(p), Ok(q)) => p == q,
            (Err(FsError::CorruptChain { msg }), Err(e)) => msg@ == e,
            _ => false,
        },
{
    let files = match collect(names, ext, Order::Range) {
        Ok(v) => v,
        Err(e) => {
            return Err(e);
        },
    };
    let ghost found = entries(texts(names@), ext@)->Ok_0;
    let ghost s = batches(files@);
    proof {
        lemma_entries_fit(texts(names@), ext@);
        law_ordering_is_a_permutation(Order::Range, found);
        lemma_ordered_fit(Order::Range, found);
    }
    let mut next: u64 = 0;
    let mut i: usize = 0;
    assert(s.skip(0) =~= s);
    while i < files.len()
        invariant
            i <= files.len(),
            s == batches(files@),
            all_fit(s),
            entries(texts(names@), ext@) == Ok::<Seq<BatchView>, Seq<char>>(found),
            s == in_order(Order::Range, found),
            reach(s, 0) == reach(s.skip(i as int), next as int),
        decreases files.len() - i,
    {
        let f = &files[i];
        assert(s.skip(i as int)[0] == s[i as int]);
        assert(s[i as int] == f@);
        assert(s.skip(i as int).skip(1) =~= s.skip(i + 1));
        if f.from != next {
            return Err(
                FsError::CorruptChain {
                    msg: "gap or overlap in chain: expected from=".to_owned().concat(
                        decimal(next).as_str(),
                    ).concat(", found ").concat(decimal(f.from).as_str()).concat("-").concat(
                        decimal(f.to).as_str(),
                    ),
                },
            );
        }
        next = f.to + 1;
        i += 1;
    }
    Ok(next)
}

proof fn lemma_ordered_fit(o: Order, s: Seq<BatchView>)
    requires
        all_fit(s),
    ensures
        all_fit(in_order(o, s)),
{
    law_ordering_is_a_permutation(o, s);
    let r = in_order(o, s);
    assert forall|i: int| 0 <= i < r.len() implies (#[trigger] r[i]).from <= r[i].to && r[i].to
        < u64::MAX by {
        let k = s.index_of(r[i]);
        assert(s[k] == r[i]);
    }
}

/// The position that a listing of snapshots shows, and the name of the
/// latest one.
pub fn scan_validate_compacted(names: &Vec<String>, ext: &str) -> (r: Result<
    (u64, Option<String>),
    FsError,
>)
    requires
        ends_fit(texts(names@), ext@),
    ensures
        match (r, snapshot_position(texts(names@), ext@)) {
            (Ok((p, latest)), Ok((q, last))) => p == q && match (latest, last) {
                (Some(a), Some(b)) => a@ == b,
                (None, None) => true,
                _ => false,
            },
            (Err(FsError::CorruptChain { msg }), Err(e)) => msg@ == e,
            _ => false,
        },
{
    let files = match collect(names, ext, Order::End) {
        Ok(v) => v,
        Err(e) => {
            return Err(e);
        },
    };
    let ghost found = entries(texts(names@), ext@)->Ok_0;
    let ghost s = batches(files@);
    proof {
        lemma_entries_fit(texts(names@), ext@);
        lemma_ordered_fit(Order::End, found);
    }
    let mut prev: Option<u64> = None;
    let mut i: usize = 0;
    assert(s.skip(0) =~= s);
    while i < files.len()
        invariant
            i <= files.len(),
            s == batches(files@),
            all_fit(s),
            entries(texts(names@), ext@) == Ok::<Seq<BatchView>, Seq<char>>(found),
            s == in_order(Order::End, found),
            last_end(s, None) == last_end(s.skip(i as int), prev),
            i > 0 ==> prev == Some(s[i - 1].to),
            i == 0 ==> prev is None,
        decreases files.len() - i,
    {
        let f = &files[i];
        assert(s.skip(i as int)[0] == s[i as int]);
        assert(s[i as int] == f@);
        assert(s.skip(i as int).skip(1) =~= s.skip(i + 1));
        if let Some(p) = prev {
            if f.from <= p {
                return Err(
                    FsError::CorruptChain {
                        msg: "overlap in compaction chain: ".to_owned().concat(
                            decimal(f.from).as_str(),
                        ).concat("-").concat(decimal(f.to).as_str()).concat(
                            " overlaps prior to=",
                        ).concat(decimal(p).as_str()),
                    },
                );
            }
        }
        prev = Some(f.to);
        i += 1;
    }
    match prev {
        None => Ok((0, None)),
        Some(to) => {
            let last: usize = files.len() - 1;
            assert(s[last as int] == files@[last as int]@);
            Ok((to + 1, Some(files[last].name.clone())))
        },
    }
}

/// The batches of a listing that records are read from, in the order of
/// the offsets at which they start. Other files are passed over.
pub open spec fn readable(names: Seq<Seq<char>>, ext: Seq<char>) -> Seq<BatchView>
    decreases names.len(),
{
    if names.len() == 0 {
        seq![]
    } else {
        let before = readable(names.drop_last(), ext);
        match named_range(names.last(), ext) {
            Some((from, to)) if !is_tmp(names.last()) => before.push(
                BatchView { from, to, name: names.last() },
            ),
            _ => before,
        }
    }
}

/// The files to read every stored record from, in the order of offsets.
pub fn read_order(names: &Vec<String>, ext: &str) -> (r: Vec<BatchFile>)
    ensures
        batches(r@) == in_order(Order::Start, readable(texts(names@), ext@)),
{
    let ghost all = texts(names@);
    let mut out: Vec<BatchFile> = Vec::new();
    let mut i: usize = 0;
    assert(all.take(0) =~= seq![]);
    assert(batches(out@) =~= seq![]);
    while i < names.len()
        invariant
            i <= names.len(),
            all == texts(names@),
            batches(out@) == in_order(Order::Start, readable(all.take(i as int), ext@)),
        decreases names.len() - i,
    {
        let ghost s = readable(all.take(i as int), ext@);
        let name = names[i].as_str();
        proof {
            assert(all.take(i + 1).drop_last() =~= all.take(i as int));
            assert(all.take(i + 1).last() == name@);
        }
        if !name_is_tmp(name) {
            if let Some((from, to)) = parse_filename(name, ext) {
                let f = BatchFile { from, to, name: name.to_owned() };
                put(Order::Start, &mut out, f);
                assert(s.push(f@).drop_last() =~= s);
            }
        }
        i += 1;
    }
    assert(all.take(i as int) =~= all);
    out
}

} // verus!
