//! What holds of the chain of stored batches, however the directory is
//! listed.
use vstd::prelude::*;
use vstd::relations::{antisymmetric, reflexive, strongly_connected, total_ordering, transitive};

use crate::chain::{
    all_fit, chain_position, entries, entry, extension, in_order, is_tmp, last_end,
    law_ordering_is_a_permutation, ordered, precedes, reach, snapshot_position, tmp_at, BatchView,
    Order,
};
use crate::naming::{batch_name, lemma_padded, padded};
use crate::text::digit_value;

verus! {

/// Whether the batch holds the offset.
pub open spec fn covers(b: BatchView, offset: int) -> bool {
    b.from <= offset <= b.to
}

/// Whether some batch holds the offset.
pub open spec fn held(s: Seq<BatchView>, offset: int) -> bool {
    exists|i: int| 0 <= i < s.len() && #[trigger] covers(s[i], offset)
}

/// What `reach` means for batches in order.
proof fn lemma_reach(s: Seq<BatchView>, next: int)
    requires
        all_fit(s),
        reach(s, next) is Ok,
    ensures
        next <= reach(s, next)->Ok_0,
        forall|o: int| next <= o < reach(s, next)->Ok_0 ==> #[trigger] held(s, o),
        forall|i: int, o: int|
            0 <= i < s.len() && #[trigger] covers(s[i], o) ==> next <= o < reach(s, next)->Ok_0,
        forall|i: int, j: int| 0 <= i < j < s.len() ==> s[i].to < s[j].from,
    decreases s.len(),
{
    if s.len() > 0 {
        let rest = s.skip(1);
        assert forall|i: int| 0 <= i < rest.len() implies (#[trigger] rest[i]).from <= rest[i].to
            && rest[i].to < u64::MAX by {
            assert(rest[i] == s[i + 1]);
        }
        lemma_reach(rest, s[0].to + 1);
        let p = reach(s, next)->Ok_0;
        assert forall|o: int| next <= o < p implies #[trigger] held(s, o) by {
            if o <= s[0].to {
                assert(covers(s[0], o));
            } else {
                assert(held(rest, o));
                let i = choose|i: int| 0 <= i < rest.len() && #[trigger] covers(rest[i], o);
                assert(covers(s[i + 1], o));
            }
        }
        assert forall|i: int, o: int| 0 <= i < s.len() && #[trigger] covers(s[i], o) implies next
            <= o < p by {
            if i > 0 {
                assert(covers(rest[i - 1], o));
            } else {
                assert(s[0].from == next);
            }
        }
        assert forall|i: int, j: int| 0 <= i < j < s.len() implies s[i].to < s[j].from by {
            if i > 0 {
                assert(rest[i - 1].to < rest[j - 1].from);
            } else {
                assert(covers(rest[j - 1], rest[j - 1].from as int));
            }
        }
    }
}

/// A chain that is accepted at position `p` holds every offset below `p`
/// in exactly one batch, and no other offset.
pub proof fn law_accepted_chain_has_no_gap_or_overlap(
    names: Seq<Seq<char>>,
    ext: Seq<char>,
    offset: int,
)
    requires
        chain_position(names, ext) is Ok,
        all_fit(entries(names, ext)->Ok_0),
    ensures
        ({
            let s = in_order(Order::Range, entries(names, ext)->Ok_0);
            let p = chain_position(names, ext)->Ok_0;
            &&& held(s, offset) <==> 0 <= offset < p
            &&& forall|i: int, j: int|
                0 <= i < j < s.len() ==> !(covers(s[i], offset) && covers(s[j], offset))
        }),
{
    let s = in_order(Order::Range, entries(names, ext)->Ok_0);
    lemma_order_keeps_fit(Order::Range, entries(names, ext)->Ok_0);
    lemma_reach(s, 0);
    assert forall|i: int, j: int| 0 <= i < j < s.len() implies !(covers(s[i], offset) && covers(
        s[j],
        offset,
    )) by {
        assert(s[i].to < s[j].from);
    }
}

proof fn lemma_order_keeps_fit(o: Order, s: Seq<BatchView>)
    requires
        all_fit(s),
    ensures
        all_fit(in_order(o, s)),
{
    law_ordering_is_a_permutation(o, s);
    let r = in_order(o, s);
    assert forall|i: int| 0 <= i < r.len() implies (#[trigger] r[i]).from <= r[i].to && r[i].to
        < u64::MAX by {
        let k = s.index_of(r[i]);
        assert(s[k] == r[i]);
    }
}

// ---- the order of the listing does not matter ------------------------------

/// How often a batch is found, by how often its name is listed.
pub proof fn lemma_entry_count(names: Seq<Seq<char>>, ext: Seq<char>, v: BatchView)
    requires
        entries(names, ext) is Ok,
    ensures
        entries(names, ext)->Ok_0.to_multiset().count(v) == if entry(v.name, ext) == Ok::<
            Option<BatchView>,
            Seq<char>,
        >(Some(v)) {
            names.to_multiset().count(v.name)
        } else {
            0
        },
    decreases names.len(),
{
    broadcast use vstd::seq_lib::group_to_multiset_ensures;
    broadcast use vstd::multiset::group_multiset_axioms;

    if names.len() > 0 {
        let init = names.drop_last();
        lemma_entry_count(init, ext, v);
        assert(names =~= init.push(names.last()));
    }
}

/// A listing has no fault exactly when no name in it has one.
proof fn lemma_entries_ok(names: Seq<Seq<char>>, ext: Seq<char>)
    ensures
        entries(names, ext) is Ok <==> forall|i: int|
            0 <= i < names.len() ==> entry(#[trigger] names[i], ext) is Ok,
    decreases names.len(),
{
    if names.len() > 0 {
        let init = names.drop_last();
        lemma_entries_ok(init, ext);
        assert forall|i: int| 0 <= i < init.len() implies init[i] == #[trigger] names[i] by {}
        if entries(names, ext) is Ok {
            assert forall|i: int| 0 <= i < names.len() implies entry(#[trigger] names[i], ext) is Ok by {
                if i < init.len() {
                    assert(entry(init[i], ext) is Ok);
                }
            }
        } else if entries(init, ext) is Err {
            let i = choose|i: int| 0 <= i < init.len() && !(entry(#[trigger] init[i], ext) is Ok);
            assert(entry(names[i], ext) is Err);
        } else {
            assert(entry(names[names.len() - 1], ext) is Err);
        }
    }
}

/// Listings of the same names find the same batches.
proof fn lemma_same_names(a: Seq<Seq<char>>, b: Seq<Seq<char>>, ext: Seq<char>)
    requires
        a.to_multiset() == b.to_multiset(),
        entries(a, ext) is Ok,
    ensures
        entries(b, ext) is Ok,
        entries(a, ext)->Ok_0.to_multiset() == entries(b, ext)->Ok_0.to_multiset(),
{
    broadcast use vstd::seq_lib::group_to_multiset_ensures;

    lemma_entries_ok(a, ext);
    lemma_entries_ok(b, ext);
    assert forall|i: int| 0 <= i < b.len() implies entry(#[trigger] b[i], ext) is Ok by {
        assert(b.contains(b[i]));
        assert(b.to_multiset().count(b[i]) > 0);
        assert(a.contains(b[i]));
        let j = a.index_of(b[i]);
        assert(entry(a[j], ext) is Ok);
    }
    let x = entries(a, ext)->Ok_0.to_multiset();
    let y = entries(b, ext)->Ok_0.to_multiset();
    assert forall|v: BatchView| x.count(v) == y.count(v) by {
        lemma_entry_count(a, ext, v);
        lemma_entry_count(b, ext, v);
    }
    assert(x =~= y);
}

/// The ranges of batches.
spec fn ranges(s: Seq<BatchView>) -> Seq<(u64, u64)> {
    s.map_values(|b: BatchView| (b.from, b.to))
}

proof fn lemma_same_ranges(s: Seq<BatchView>, t: Seq<BatchView>)
    requires
        s.to_multiset() == t.to_multiset(),
    ensures
        ranges(s).to_multiset() == ranges(t).to_multiset(),
    decreases s.len(),
{
    broadcast use vstd::seq_lib::group_to_multiset_ensures;
    broadcast use vstd::multiset::group_multiset_axioms;

    if s.len() > 0 {
        let x = s.last();
        let init = s.drop_last();
        assert(s =~= init.push(x));
        assert(s.to_multiset().count(x) > 0);
        assert(t.contains(x));
        let i = t.index_of(x);
        let rest = t.remove(i);
        assert(rest.to_multiset() =~= t.to_multiset().remove(x));
        assert(init.to_multiset() =~= s.to_multiset().remove(x));
        lemma_same_ranges(init, rest);
        assert(ranges(s) =~= ranges(init).push((x.from, x.to)));
        assert(ranges(t).remove(i) =~= ranges(rest));
        assert(ranges(t)[i] == (x.from, x.to));
        assert(ranges(t).to_multiset() =~= ranges(rest).to_multiset().insert((x.from, x.to)));
        assert(ranges(s).to_multiset() =~= ranges(t).to_multiset());
    } else {
        assert(t.len() == 0) by {
            assert(s.to_multiset().len() == 0);
            assert(t.to_multiset().len() == t.len());
        }
        assert(ranges(s) =~= ranges(t));
    }
}

/// How far batches reach depends on their ranges alone.
proof fn lemma_reach_by_ranges(s: Seq<BatchView>, t: Seq<BatchView>, next: int)
    requires
        ranges(s) == ranges(t),
    ensures
        reach(s, next) == reach(t, next),
    decreases s.len(),
{
    assert(s.len() == ranges(s).len() && t.len() == ranges(t).len());
    if s.len() > 0 {
        assert(ranges(s)[0] == ranges(t)[0]);
        assert(ranges(s.skip(1)) =~= ranges(s).skip(1));
        assert(ranges(t.skip(1)) =~= ranges(t).skip(1));
        lemma_reach_by_ranges(s.skip(1), t.skip(1), s[0].to + 1);
    }
}

proof fn lemma_sorted_ranges(a: Seq<BatchView>, b: Seq<BatchView>)
    requires
        a.to_multiset() == b.to_multiset(),
    ensures
        ranges(in_order(Order::Range, a)) == ranges(in_order(Order::Range, b)),
{
    let leq = |x: (u64, u64), y: (u64, u64)| x.0 < y.0 || (x.0 == y.0 && x.1 <= y.1);
    let s = in_order(Order::Range, a);
    let t = in_order(Order::Range, b);
    law_ordering_is_a_permutation(Order::Range, a);
    law_ordering_is_a_permutation(Order::Range, b);
    lemma_same_ranges(s, t);
    assert(total_ordering(leq)) by {
        assert(reflexive(leq));
        assert(antisymmetric(leq));
        assert(transitive(leq));
        assert(strongly_connected(leq));
    }
    assert forall|i: int, j: int| 0 <= i < j < ranges(s).len() implies #[trigger] leq(
        ranges(s)[i],
        ranges(s)[j],
    ) by {
        assert(!precedes(Order::Range, s[j], s[i]));
    }
    assert forall|i: int, j: int| 0 <= i < j < ranges(t).len() implies #[trigger] leq(
        ranges(t)[i],
        ranges(t)[j],
    ) by {
        assert(!precedes(Order::Range, t[j], t[i]));
    }
    vstd::seq_lib::lemma_sorted_unique(ranges(s), ranges(t), leq);
}

/// Where a chain stands does not depend on the order in which the
/// directory lists it.
pub proof fn law_position_ignores_listing_order(
    a: Seq<Seq<char>>,
    b: Seq<Seq<char>>,
    ext: Seq<char>,
)
    requires
        a.to_multiset() == b.to_multiset(),
        chain_position(a, ext) is Ok,
    ensures
        chain_position(b, ext) == chain_position(a, ext),
{
    lemma_same_names(a, b, ext);
    let s = entries(a, ext)->Ok_0;
    let t = entries(b, ext)->Ok_0;
    lemma_sorted_ranges(s, t);
    lemma_reach_by_ranges(in_order(Order::Range, s), in_order(Order::Range, t), 0);
}

// ---- a flush moves the position ---------------------------------------------

/// An extension without dots.
pub open spec fn plain(ext: Seq<char>) -> bool {
    !ext.contains('.')
}

proof fn lemma_extension(stem: Seq<char>, ext: Seq<char>)
    requires
        plain(ext),
    ensures
        extension(stem + seq!['.'] + ext) == Some(ext),
    decreases ext.len(),
{
    let name = stem + seq!['.'] + ext;
    if ext.len() == 0 {
        assert(name.last() == '.');
        assert(ext =~= seq![]);
    } else {
        let init = ext.drop_last();
        assert(plain(init)) by {
            if init.contains('.') {
                let i = init.index_of('.');
                assert(ext[i] == '.');
            }
        }
        lemma_extension(stem, init);
        assert(name.drop_last() =~= stem + seq!['.'] + init);
        assert(ext[ext.len() - 1] != '.') by {
            if ext[ext.len() - 1] == '.' {
                assert(ext.contains('.'));
            }
        }
        assert(init.push(ext.last()) =~= ext);
    }
}

/// The name of a batch is read as that batch.
pub proof fn law_flushed_batch_is_found(from: u64, to: u64, ext: Seq<char>)
    requires
        from <= to,
        plain(ext),
    ensures
        entry(batch_name(from, to, ext), ext) == Ok::<Option<BatchView>, Seq<char>>(
            Some(BatchView { from, to, name: batch_name(from, to, ext) }),
        ),
{
    let name = batch_name(from, to, ext);
    crate::naming::law_names_give_their_range_back(from, to, ext);
    lemma_padded(from);
    lemma_padded(to);
    reveal_strlit("-");
    reveal_strlit(".");
    assert("-"@ =~= seq!['-']);
    assert("."@ =~= seq!['.']);
    let stem = padded(from) + seq!['-'] + padded(to);
    assert(name =~= stem + seq!['.'] + ext);
    lemma_extension(stem, ext);
    assert(!is_tmp(name)) by {
        if is_tmp(name) {
            let i = choose|i: int| #[trigger] tmp_at(name, i);
            let n = stem.len() as int;
            assert(n == 41);
            if i < n {
                lemma_stem_chars(from, to, i);
                assert(name[i] == stem[i]);
            } else if i == n {
                assert(name[i + 4] == ext[3]);
                assert(ext.contains('.'));
            } else {
                assert(name[i] == ext[i - n - 1]);
                assert(ext.contains('.'));
            }
        }
    }
}

proof fn lemma_stem_chars(from: u64, to: u64, i: int)
    requires
        0 <= i < 41,
    ensures
        (padded(from) + seq!['-'] + padded(to)).len() == 41,
        (padded(from) + seq!['-'] + padded(to))[i] != '.',
{
    lemma_padded(from);
    lemma_padded(to);
    let stem = padded(from) + seq!['-'] + padded(to);
    if i < 20 {
        assert(stem[i] == padded(from)[i]);
        assert(digit_value(padded(from)[i]) is Some);
    } else if i > 20 {
        assert(stem[i] == padded(to)[i - 21]);
        assert(digit_value(padded(to)[i - 21]) is Some);
    }
}

/// Batches that reach `p`, and one more that starts there.
proof fn lemma_reach_push(s: Seq<BatchView>, next: int, b: BatchView)
    requires
        reach(s, next) is Ok,
        reach(s, next)->Ok_0 == b.from,
    ensures
        reach(s.push(b), next) == Ok::<int, Seq<char>>(b.to + 1),
    decreases s.len(),
{
    let t = s.push(b);
    if s.len() > 0 {
        assert(t.skip(1) =~= s.skip(1).push(b));
        lemma_reach_push(s.skip(1), s[0].to + 1, b);
    } else {
        assert(t.skip(1) =~= seq![]);
        assert(reach(t.skip(1), b.to + 1) == Ok::<int, Seq<char>>(b.to + 1));
    }
}

/// A restart resumes right after the last flush: once a chain that stands
/// at `from` got the batch `from` to `to`, any listing of it shows the
/// position `to + 1`.
pub proof fn law_restart_resumes_after_flush(
    names: Seq<Seq<char>>,
    after: Seq<Seq<char>>,
    ext: Seq<char>,
    from: u64,
    to: u64,
)
    requires
        chain_position(names, ext) == Ok::<int, Seq<char>>(from as int),
        all_fit(entries(names, ext)->Ok_0),
        from <= to,
        plain(ext),
        after.to_multiset() == names.to_multiset().insert(batch_name(from, to, ext)),
    ensures
        chain_position(after, ext) == Ok::<int, Seq<char>>(to + 1),
{
    broadcast use vstd::seq_lib::group_to_multiset_ensures;

    let name = batch_name(from, to, ext);
    let b = BatchView { from, to, name };
    law_flushed_batch_is_found(from, to, ext);
    let listed = names.push(name);
    assert(listed.drop_last() =~= names);
    let s = entries(names, ext)->Ok_0;
    assert(entries(listed, ext) == Ok::<Seq<BatchView>, Seq<char>>(s.push(b)));
    assert(s.push(b).drop_last() =~= s);
    let sorted = in_order(Order::Range, s);
    lemma_order_keeps_fit(Order::Range, s);
    lemma_reach(sorted, 0);
    assert(in_order(Order::Range, s.push(b)) == sorted.push(b)) by {
        if sorted.len() > 0 {
            let last = sorted[sorted.len() - 1];
            assert(covers(last, last.to as int));
            assert(last.to < from);
        }
    }
    lemma_reach_push(sorted, 0, b);
    assert(listed.to_multiset() == after.to_multiset());
    law_position_ignores_listing_order(listed, after, ext);
}

/// Batches that do not overlap end at different offsets.
proof fn lemma_last_end(s: Seq<BatchView>, prev: Option<u64>)
    requires
        all_fit(s),
        last_end(s, prev) is Ok,
    ensures
        forall|i: int, j: int| 0 <= i < j < s.len() ==> s[i].to < s[j].from,
        forall|i: int| 0 <= i < s.len() && prev is Some ==> prev->0 < (#[trigger] s[i]).from,
        last_end(s, prev)->Ok_0 == if s.len() > 0 {
            Some(s.last().to)
        } else {
            prev
        },
    decreases s.len(),
{
    if s.len() > 0 {
        let rest = s.skip(1);
        assert forall|i: int| 0 <= i < rest.len() implies (#[trigger] rest[i]).from <= rest[i].to
            && rest[i].to < u64::MAX by {
            assert(rest[i] == s[i + 1]);
        }
        lemma_last_end(rest, Some(s[0].to));
        assert forall|i: int, j: int| 0 <= i < j < s.len() implies s[i].to < s[j].from by {
            assert(rest[j - 1] == s[j]);
            if i > 0 {
                assert(rest[i - 1] == s[i]);
            }
        }
        assert forall|i: int| 0 <= i < s.len() && prev is Some implies prev->0 < (
        #[trigger] s[i]).from by {
            if i > 0 {
                assert(rest[i - 1] == s[i]);
            }
        }
        if rest.len() > 0 {
            assert(rest.last() == s.last());
        }
    }
}

/// Of two ordered lists of the same batches, one of which has no two that
/// end at one offset, each is the other.
proof fn lemma_same_order(s: Seq<BatchView>, t: Seq<BatchView>)
    requires
        s.to_multiset() == t.to_multiset(),
        ordered(Order::End, s),
        ordered(Order::End, t),
        forall|i: int, j: int| 0 <= i < j < s.len() ==> s[i].to < s[j].to,
    ensures
        s == t,
    decreases s.len(),
{
    broadcast use vstd::seq_lib::group_to_multiset_ensures;
    broadcast use vstd::multiset::group_multiset_axioms;

    assert(s.to_multiset().len() == s.len() && t.to_multiset().len() == t.len());
    if s.len() > 0 {
        let x = s.last();
        let y = t.last();
        assert(t.contains(x)) by {
            assert(s.contains(x));
            assert(s.to_multiset().count(x) > 0);
        }
        assert(s.contains(y)) by {
            assert(t.contains(y));
            assert(t.to_multiset().count(y) > 0);
        }
        let i = t.index_of(x);
        let j = s.index_of(y);
        if i < t.len() - 1 {
            assert(!precedes(Order::End, t[t.len() - 1], t[i]));
        }
        if j < s.len() - 1 {
            assert(s[j].to < s[s.len() - 1].to);
        }
        assert(x == y);
        let a = s.drop_last();
        let b = t.drop_last();
        assert(s =~= a.push(x));
        assert(t =~= b.push(x));
        assert(a.to_multiset() =~= s.to_multiset().remove(x));
        assert(b.to_multiset() =~= t.to_multiset().remove(x));
        assert forall|k: int, l: int| 0 <= k < l < a.len() implies !precedes(
            Order::End,
            a[l],
            a[k],
        ) by {
            assert(!precedes(Order::End, s[l], s[k]));
        }
        assert forall|k: int, l: int| 0 <= k < l < b.len() implies !precedes(
            Order::End,
            b[l],
            b[k],
        ) by {
            assert(!precedes(Order::End, t[l], t[k]));
        }
        assert forall|k: int, l: int| 0 <= k < l < a.len() implies a[k].to < a[l].to by {
            assert(s[k].to < s[l].to);
        }
        lemma_same_order(a, b);
    } else {
        assert(s =~= t);
    }
}

/// Snapshots, and one more that starts behind them.
proof fn lemma_last_end_push(s: Seq<BatchView>, prev: Option<u64>, b: BatchView)
    requires
        all_fit(s),
        last_end(s, prev) is Ok,
        last_end(s, prev)->Ok_0 matches Some(to) ==> to < b.from,
    ensures
        last_end(s.push(b), prev) == Ok::<Option<u64>, Seq<char>>(Some(b.to)),
    decreases s.len(),
{
    let t = s.push(b);
    if s.len() > 0 {
        let rest = s.skip(1);
        assert forall|i: int| 0 <= i < rest.len() implies (#[trigger] rest[i]).from <= rest[i].to
            && rest[i].to < u64::MAX by {
            assert(rest[i] == s[i + 1]);
        }
        assert(t.skip(1) =~= rest.push(b));
        lemma_last_end_push(rest, Some(s[0].to), b);
    } else {
        assert(t.skip(1) =~= seq![]);
        assert(last_end(t.skip(1), Some(b.to)) == Ok::<Option<u64>, Seq<char>>(Some(b.to)));
    }
}

/// A restart from snapshots resumes right after the last one and reads
/// that one: once snapshots that stand at `p` got one from `from` at or
/// behind `p` up to `to`, any listing shows the position `to + 1` and the
/// new snapshot as the latest.
pub proof fn law_restart_reads_the_latest_snapshot(
    names: Seq<Seq<char>>,
    after: Seq<Seq<char>>,
    ext: Seq<char>,
    from: u64,
    to: u64,
)
    requires
        snapshot_position(names, ext) is Ok,
        all_fit(entries(names, ext)->Ok_0),
        snapshot_position(names, ext)->Ok_0.0 <= from <= to,
        to < u64::MAX,
        plain(ext),
        after.to_multiset() == names.to_multiset().insert(batch_name(from, to, ext)),
    ensures
        snapshot_position(after, ext) == Ok::<(int, Option<Seq<char>>), Seq<char>>(
            (to + 1, Some(batch_name(from, to, ext))),
        ),
{
    broadcast use vstd::seq_lib::group_to_multiset_ensures;

    let name = batch_name(from, to, ext);
    let b = BatchView { from, to, name };
    law_flushed_batch_is_found(from, to, ext);
    let listed = names.push(name);
    assert(listed.drop_last() =~= names);
    let s = entries(names, ext)->Ok_0;
    let grown = s.push(b);
    assert(entries(listed, ext) == Ok::<Seq<BatchView>, Seq<char>>(grown));
    assert(grown.drop_last() =~= s);
    let sorted = in_order(Order::End, s);
    lemma_order_keeps_fit(Order::End, s);
    lemma_last_end(sorted, None);
    assert(in_order(Order::End, grown) == sorted.push(b)) by {
        if sorted.len() > 0 {
            assert(sorted.last().to < from);
        }
    }
    lemma_last_end_push(sorted, None, b);
    let x = sorted.push(b);
    lemma_same_names(listed, after, ext);
    let found = entries(after, ext)->Ok_0;
    law_ordering_is_a_permutation(Order::End, grown);
    law_ordering_is_a_permutation(Order::End, found);
    assert forall|i: int, j: int| 0 <= i < j < x.len() implies x[i].to < x[j].to by {
        if j < sorted.len() {
            assert(sorted[i].to < sorted[j].from);
            assert(sorted[j].from <= sorted[j].to);
        } else {
            assert(sorted[i].to <= sorted.last().to) by {
                if i < sorted.len() - 1 {
                    assert(sorted[i].to < sorted[sorted.len() - 1].from);
                    assert(sorted[sorted.len() - 1].from <= sorted[sorted.len() - 1].to);
                }
            }
        }
    }
    lemma_same_order(x, in_order(Order::End, found));
}

/// The position that a listing of snapshots shows, and the latest of them,
/// do not depend on the order of the listing.
pub proof fn law_snapshots_ignore_listing_order(
    a: Seq<Seq<char>>,
    b: Seq<Seq<char>>,
    ext: Seq<char>,
)
    requires
        a.to_multiset() == b.to_multiset(),
        snapshot_position(a, ext) is Ok,
        all_fit(entries(a, ext)->Ok_0),
    ensures
        snapshot_position(b, ext) == snapshot_position(a, ext),
{
    lemma_same_names(a, b, ext);
    let s = entries(a, ext)->Ok_0;
    let t = entries(b, ext)->Ok_0;
    let x = in_order(Order::End, s);
    law_ordering_is_a_permutation(Order::End, s);
    law_ordering_is_a_permutation(Order::End, t);
    lemma_order_keeps_fit(Order::End, s);
    lemma_last_end(x, None);
    assert forall|i: int, j: int| 0 <= i < j < x.len() implies x[i].to < x[j].to by {
        assert(x[i].to < x[j].from);
        assert(x[j].from <= x[j].to);
    }
    lemma_same_order(x, in_order(Order::End, t));
}

/// Whether `p` is the offset after the last stored one: every batch ends
/// below `p`, and one of them right below it unless there is none.
pub open spec fn after_last(s: Seq<BatchView>, p: int) -> bool {
    &&& forall|i: int| 0 <= i < s.len() ==> (#[trigger] s[i]).to < p
    &&& if s.len() == 0 {
        p == 0
    } else {
        exists|i: int| 0 <= i < s.len() && (#[trigger] s[i]).to + 1 == p
    }
}

proof fn lemma_reach_is_after_last(s: Seq<BatchView>, next: int)
    requires
        reach(s, next) is Ok,
        s.len() > 0,
    ensures
        reach(s, next)->Ok_0 == s.last().to + 1,
    decreases s.len(),
{
    let rest = s.skip(1);
    if rest.len() > 0 {
        lemma_reach_is_after_last(rest, s[0].to + 1);
        assert(rest.last() == s.last());
    } else {
        assert(reach(rest, s[0].to + 1) == Ok::<int, Seq<char>>(s[0].to + 1));
    }
}

proof fn lemma_order_keeps_last(o: Order, s: Seq<BatchView>, p: int)
    requires
        after_last(in_order(o, s), p),
    ensures
        after_last(s, p),
{
    broadcast use vstd::seq_lib::group_to_multiset_ensures;

    let x = in_order(o, s);
    law_ordering_is_a_permutation(o, s);
    assert forall|i: int| 0 <= i < s.len() implies (#[trigger] s[i]).to < p by {
        assert(s.contains(s[i]));
        assert(s.to_multiset().count(s[i]) > 0);
        assert(x.contains(s[i]));
        let k = x.index_of(s[i]);
        assert(x[k].to < p);
    }
    if s.len() > 0 {
        let i = choose|i: int| 0 <= i < x.len() && (#[trigger] x[i]).to + 1 == p;
        assert(s.contains(x[i]));
        let k = s.index_of(x[i]);
        assert(s[k].to + 1 == p);
    }
}

/// The position that a listing shows is the offset after the last stored
/// one, or zero where nothing is stored.
pub proof fn law_position_is_after_the_last_batch(names: Seq<Seq<char>>, ext: Seq<char>)
    requires
        entries(names, ext) is Ok,
        all_fit(entries(names, ext)->Ok_0),
    ensures
        chain_position(names, ext) matches Ok(p) ==> after_last(entries(names, ext)->Ok_0, p),
        snapshot_position(names, ext) matches Ok((p, _)) ==> after_last(
            entries(names, ext)->Ok_0,
            p,
        ),
{
    let s = entries(names, ext)->Ok_0;
    if let Ok(p) = chain_position(names, ext) {
        let x = in_order(Order::Range, s);
        lemma_order_keeps_fit(Order::Range, s);
        lemma_reach(x, 0);
        assert forall|i: int| 0 <= i < x.len() implies (#[trigger] x[i]).to < p by {
            assert(covers(x[i], x[i].to as int));
        }
        if x.len() > 0 {
            lemma_reach_is_after_last(x, 0);
            assert(x[x.len() - 1].to + 1 == p);
        }
        assert(after_last(x, p));
        lemma_order_keeps_last(Order::Range, s, p);
    }
    if let Ok((p, _)) = snapshot_position(names, ext) {
        let x = in_order(Order::End, s);
        lemma_order_keeps_fit(Order::End, s);
        lemma_last_end(x, None);
        let n = x.len() - 1;
        assert forall|i: int| 0 <= i < x.len() implies (#[trigger] x[i]).to < p by {
            if i < n {
                assert(x[i].to < x[n].from);
                assert(x[n].from <= x[n].to);
            }
        }
        if x.len() > 0 {
            assert(x[n].to + 1 == p);
        }
        assert(after_last(x, p));
        lemma_order_keeps_last(Order::End, s, p);
    }
}

/// A listed name that stands for a batch is among the batches in order.
proof fn lemma_listed(names: Seq<Seq<char>>, ext: Seq<char>, o: Order, b: BatchView)
    requires
        entries(names, ext) is Ok,
        names.contains(b.name),
        entry(b.name, ext) == Ok::<Option<BatchView>, Seq<char>>(Some(b)),
    ensures
        in_order(o, entries(names, ext)->Ok_0).contains(b),
{
    broadcast use vstd::seq_lib::group_to_multiset_ensures;

    let s = entries(names, ext)->Ok_0;
    lemma_entry_count(names, ext, b);
    law_ordering_is_a_permutation(o, s);
    assert(names.to_multiset().count(b.name) > 0);
    assert(in_order(o, s).to_multiset().count(b) > 0);
}

/// The name of the next batch is not taken: a chain that stands at `from`
/// lists no batch that starts there.
pub proof fn law_next_batch_is_not_listed(
    names: Seq<Seq<char>>,
    ext: Seq<char>,
    from: u64,
    to: u64,
)
    requires
        chain_position(names, ext) == Ok::<int, Seq<char>>(from as int),
        all_fit(entries(names, ext)->Ok_0),
        from <= to,
        plain(ext),
    ensures
        !names.contains(batch_name(from, to, ext)),
{
    let b = BatchView { from, to, name: batch_name(from, to, ext) };
    law_flushed_batch_is_found(from, to, ext);
    if names.contains(b.name) {
        let sorted = in_order(Order::Range, entries(names, ext)->Ok_0);
        lemma_listed(names, ext, Order::Range, b);
        lemma_order_keeps_fit(Order::Range, entries(names, ext)->Ok_0);
        lemma_reach(sorted, 0);
        let i = sorted.index_of(b);
        assert(covers(sorted[i], from as int));
    }
}

/// The name of the next snapshot is not taken: snapshots that stand at or
/// below `from` list none that starts there.
pub proof fn law_next_snapshot_is_not_listed(
    names: Seq<Seq<char>>,
    ext: Seq<char>,
    from: u64,
    to: u64,
)
    requires
        snapshot_position(names, ext) is Ok,
        all_fit(entries(names, ext)->Ok_0),
        snapshot_position(names, ext)->Ok_0.0 <= from <= to,
        plain(ext),
    ensures
        !names.contains(batch_name(from, to, ext)),
{
    let b = BatchView { from, to, name: batch_name(from, to, ext) };
    law_flushed_batch_is_found(from, to, ext);
    if names.contains(b.name) {
        let sorted = in_order(Order::End, entries(names, ext)->Ok_0);
        lemma_listed(names, ext, Order::End, b);
        lemma_order_keeps_fit(Order::End, entries(names, ext)->Ok_0);
        lemma_last_end(sorted, None);
        let i = sorted.index_of(b);
        let last = sorted.len() - 1;
        if i < last {
            assert(sorted[i].to < sorted[last].from);
            assert(sorted[last].from <= sorted[last].to);
        }
        assert(sorted[i].to <= sorted.last().to);
    }
}

/// Unfinished batches and files that are no batches do not count.
pub proof fn law_unfinished_batches_are_ignored(
    names: Seq<Seq<char>>,
    ext: Seq<char>,
    tmp: Seq<char>,
)
    requires
        is_tmp(tmp),
    ensures
        entries(names.push(tmp), ext) == entries(names, ext),
        chain_position(names.push(tmp), ext) == chain_position(names, ext),
        snapshot_position(names.push(tmp), ext) == snapshot_position(names, ext),
{
    assert(names.push(tmp).drop_last() =~= names);
}

} // verus!
