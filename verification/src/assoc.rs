//! Lists of key-value pairs in which no key occurs twice, and the maps
//! that they stand for.
use vstd::prelude::*;

verus! {

/// Whether no key occurs twice.
pub open spec fn unique_keys<K, V>(s: Seq<(K, V)>) -> bool {
    forall|i: int, j: int| 0 <= i < j < s.len() ==> s[i].0 != s[j].0
}

/// Whether `k` is the key of some pair.
pub open spec fn has_key<K, V>(s: Seq<(K, V)>, k: K) -> bool {
    exists|i: int| 0 <= i < s.len() && (#[trigger] s[i]).0 == k
}

/// The place of a pair with key `k`.
pub open spec fn place_of<K, V>(s: Seq<(K, V)>, k: K) -> int {
    choose|i: int| 0 <= i < s.len() && (#[trigger] s[i]).0 == k
}

/// The value that goes with `k`, if there is one.
pub open spec fn lookup<K, V>(s: Seq<(K, V)>, k: K) -> Option<V> {
    if has_key(s, k) {
        Some(s[place_of(s, k)].1)
    } else {
        None
    }
}

/// `s` with the value of `k` set to `v`: in its place where `k` occurs,
/// else at the end.
pub open spec fn upsert<K, V>(s: Seq<(K, V)>, k: K, v: V) -> Seq<(K, V)> {
    if has_key(s, k) {
        s.map_values(
            |e: (K, V)|
                if e.0 == k {
                    (k, v)
                } else {
                    e
                },
        )
    } else {
        s.push((k, v))
    }
}

/// `s` without the pair of `k`; the others keep their order.
pub open spec fn without<K, V>(s: Seq<(K, V)>, k: K) -> Seq<(K, V)> {
    s.filter(|e: (K, V)| e.0 != k)
}

/// The map that `s` stands for.
pub open spec fn as_map<K, V>(s: Seq<(K, V)>) -> Map<K, V> {
    Map::new(|k: K| has_key(s, k), |k: K| lookup(s, k)->0)
}

/// In a list of unique keys the pair at `i` is the one of its key.
pub proof fn lemma_lookup_at<K, V>(s: Seq<(K, V)>, i: int)
    requires
        unique_keys(s),
        0 <= i < s.len(),
    ensures
        has_key(s, s[i].0),
        place_of(s, s[i].0) == i,
        lookup(s, s[i].0) == Some(s[i].1),
        as_map(s).dom().contains(s[i].0),
        as_map(s)[s[i].0] == s[i].1,
{
    let k = s[i].0;
    assert(s[i].0 == k);
    let p = place_of(s, k);
    assert(0 <= p < s.len() && s[p].0 == k);
    if p < i {
        assert(s[p].0 != s[i].0);
    } else if i < p {
        assert(s[i].0 != s[p].0);
    }
}

/// Setting the pair at `i` to a new value inserts it into the map.
pub proof fn lemma_update_inserts<K, V>(s: Seq<(K, V)>, i: int, v: V)
    requires
        unique_keys(s),
        0 <= i < s.len(),
    ensures
        unique_keys(s.update(i, (s[i].0, v))),
        as_map(s.update(i, (s[i].0, v))) == as_map(s).insert(s[i].0, v),
        s.update(i, (s[i].0, v)) == upsert(s, s[i].0, v),
{
    let k = s[i].0;
    let t = s.update(i, (k, v));
    assert(unique_keys(t));
    lemma_lookup_at(s, i);
    assert forall|x: K| has_key(t, x) <==> has_key(s, x) by {
        if has_key(s, x) {
            let p = place_of(s, x);
            assert(t[p].0 == x);
        }
        if has_key(t, x) {
            let p = place_of(t, x);
            assert(s[p].0 == x);
        }
    }
    assert forall|x: K| has_key(s, x) implies #[trigger] as_map(t)[x] == as_map(s).insert(
        k,
        v,
    )[x] by {
        let p = place_of(s, x);
        assert(s[p].0 == x);
        assert(t[p].0 == x);
        lemma_lookup_at(t, p);
        lemma_lookup_at(s, p);
    }
    assert(as_map(t) =~= as_map(s).insert(k, v));
    assert forall|j: int| 0 <= j < s.len() implies t[j] == #[trigger] upsert(s, k, v)[j] by {
        if s[j].0 == k {
            lemma_lookup_at(s, j);
        }
    }
    assert(t =~= upsert(s, k, v));
}

/// A new key goes to the end of the list and into the map.
pub proof fn lemma_push_inserts<K, V>(s: Seq<(K, V)>, k: K, v: V)
    requires
        unique_keys(s),
        !has_key(s, k),
    ensures
        unique_keys(s.push((k, v))),
        as_map(s.push((k, v))) == as_map(s).insert(k, v),
        s.push((k, v)) == upsert(s, k, v),
{
    let t = s.push((k, v));
    assert forall|i: int, j: int| 0 <= i < j < t.len() implies t[i].0 != t[j].0 by {
        if j == s.len() {
            assert(t[i] == s[i]);
        }
    }
    assert forall|x: K| has_key(t, x) <==> (has_key(s, x) || x == k) by {
        if has_key(s, x) {
            let p = place_of(s, x);
            assert(t[p].0 == x);
        }
        if x == k {
            assert(t[s.len() as int].0 == x);
        }
        if has_key(t, x) {
            let p = place_of(t, x);
            if p < s.len() {
                assert(s[p].0 == x);
            }
        }
    }
    assert forall|x: K| has_key(t, x) implies #[trigger] as_map(t)[x] == as_map(s).insert(
        k,
        v,
    )[x] by {
        let p = place_of(t, x);
        assert(t[p].0 == x);
        lemma_lookup_at(t, p);
        if p < s.len() {
            assert(s[p].0 == x);
            lemma_lookup_at(s, p);
        }
    }
    assert(as_map(t) =~= as_map(s).insert(k, v));
}

/// Setting a value keeps keys unique.
pub proof fn lemma_upsert_unique<K, V>(s: Seq<(K, V)>, k: K, v: V)
    requires
        unique_keys(s),
    ensures
        unique_keys(upsert(s, k, v)),
        as_map(upsert(s, k, v)) == as_map(s).insert(k, v),
{
    if has_key(s, k) {
        lemma_update_inserts(s, place_of(s, k), v);
    } else {
        lemma_push_inserts(s, k, v);
    }
}

/// Taking a key out keeps the others, in their order, and unique.
pub proof fn lemma_without<K, V>(s: Seq<(K, V)>, k: K)
    requires
        unique_keys(s),
    ensures
        unique_keys(without(s, k)),
        as_map(without(s, k)) == as_map(s).remove(k),
    decreases s.len(),
{
    reveal(Seq::filter);
    let keep = |e: (K, V)| e.0 != k;
    if s.len() > 0 {
        let init = s.drop_last();
        assert(unique_keys(init));
        lemma_without(init, k);
        let last = s.last();
        let w = without(init, k);
        assert(!has_key(init, last.0)) by {
            if has_key(init, last.0) {
                let p = place_of(init, last.0);
                assert(s[p].0 == s[s.len() - 1].0);
            }
        }
        assert(init.push(last) =~= s);
        lemma_push_inserts(init, last.0, last.1);
        assert(as_map(s) == as_map(init).insert(last.0, last.1));
        if keep(last) {
            assert(without(s, k) =~= w.push(last));
            assert(!has_key(w, last.0)) by {
                if has_key(w, last.0) {
                    assert(as_map(w).dom().contains(last.0));
                    assert(as_map(init).remove(k).dom().contains(last.0));
                }
            }
            lemma_push_inserts(w, last.0, last.1);
            assert(as_map(without(s, k)) =~= as_map(s).remove(k));
        } else {
            assert(without(s, k) =~= w);
            assert(as_map(init).remove(k) =~= as_map(s).remove(k));
        }
    } else {
        assert(without(s, k) =~= s);
        assert(as_map(s).remove(k) =~= as_map(s));
    }
}

/// A new key may go to any place of the list.
pub proof fn lemma_insert_at<K, V>(s: Seq<(K, V)>, p: int, k: K, v: V)
    requires
        unique_keys(s),
        !has_key(s, k),
        0 <= p <= s.len(),
    ensures
        unique_keys(s.insert(p, (k, v))),
        as_map(s.insert(p, (k, v))) == as_map(s).insert(k, v),
{
    let t = s.insert(p, (k, v));
    assert forall|i: int, j: int| 0 <= i < j < t.len() implies t[i].0 != t[j].0 by {
        let si = if i < p { i } else { i - 1 };
        let sj = if j < p { j } else { j - 1 };
        if i != p {
            assert(t[i] == s[si]);
        }
        if j != p {
            assert(t[j] == s[sj]);
        }
    }
    assert forall|x: K| has_key(t, x) <==> (has_key(s, x) || x == k) by {
        if has_key(s, x) {
            let q = place_of(s, x);
            assert(t[if q < p { q } else { q + 1 }].0 == x);
        }
        if x == k {
            assert(t[p].0 == x);
        }
        if has_key(t, x) {
            let q = place_of(t, x);
            if q != p {
                assert(s[if q < p { q } else { q - 1 }].0 == x);
            }
        }
    }
    assert forall|x: K| has_key(t, x) implies #[trigger] as_map(t)[x] == as_map(s).insert(
        k,
        v,
    )[x] by {
        let q = place_of(t, x);
        assert(t[q].0 == x);
        lemma_lookup_at(t, q);
        if q != p {
            let sq = if q < p { q } else { q - 1 };
            assert(s[sq].0 == x);
            lemma_lookup_at(s, sq);
        }
    }
    assert(as_map(t) =~= as_map(s).insert(k, v));
}

/// Taking out the pair at `i` takes its key out of the map.
pub proof fn lemma_remove_at<K, V>(s: Seq<(K, V)>, i: int)
    requires
        unique_keys(s),
        0 <= i < s.len(),
    ensures
        unique_keys(s.remove(i)),
        as_map(s.remove(i)) == as_map(s).remove(s[i].0),
{
    let t = s.remove(i);
    let k = s[i].0;
    assert forall|a: int, b: int| 0 <= a < b < t.len() implies t[a].0 != t[b].0 by {
        let sa = if a < i { a } else { a + 1 };
        let sb = if b < i { b } else { b + 1 };
        assert(t[a] == s[sa] && t[b] == s[sb]);
        assert(s[sa].0 != s[sb].0);
    }
    assert forall|x: K| has_key(t, x) <==> (has_key(s, x) && x != k) by {
        if has_key(t, x) {
            let p = place_of(t, x);
            let sp = if p < i { p } else { p + 1 };
            assert(s[sp].0 == x);
            if sp < i {
                assert(s[sp].0 != s[i].0);
            } else {
                assert(s[i].0 != s[sp].0);
            }
        }
        if has_key(s, x) && x != k {
            let p = place_of(s, x);
            assert(t[if p < i { p } else { p - 1 }].0 == x);
        }
    }
    assert forall|x: K| has_key(t, x) implies #[trigger] as_map(t)[x] == as_map(s).remove(k)[x] by {
        let p = place_of(t, x);
        assert(t[p].0 == x);
        lemma_lookup_at(t, p);
        lemma_lookup_at(s, if p < i { p } else { p + 1 });
    }
    assert(as_map(t) =~= as_map(s).remove(k));
}

} // verus!
