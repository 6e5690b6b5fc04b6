//! What names, listings and the order of stored batches mean, in terms of
//! the characters of the names and the offsets themselves.
use vstd::prelude::*;

use crate::chain::{
    all_fit, chain_position, ends_fit, entries, entry, extension, in_order, is_tmp,
    law_ordering_is_a_permutation, last_end, reach, readable, snapshot_position, tmp_at, BatchView,
    Order,
};
use crate::naming::{
    batch_name, joined, law_names_give_their_range_back, lemma_padded, named_range, padded,
};
use crate::text::{
    all_digits, as_signed, dec, digit_value, digits_value, lemma_dec_digits, parse_unsigned,
    signed_dec, text_lt,
};

verus! {

// ---- numbers ------------------------------------------------------------------

/// A printed number has only the characters from `0` to `9`, starts with
/// `0` only where it is zero, and another digit behind it makes it ten
/// times as large, and that digit more.
pub proof fn law_decimal_digits(n: nat, d: nat)
    requires
        d < 10,
    ensures
        dec(n).len() > 0,
        forall|i: int| 0 <= i < dec(n).len() ==> '0' <= #[trigger] dec(n)[i] <= '9',
        n > 0 ==> dec(n)[0] != '0',
        n > 0 ==> dec(n * 10 + d).len() == dec(n).len() + 1,
        n > 0 ==> dec(n * 10 + d).drop_last() == dec(n),
        n > 0 ==> dec(n * 10 + d).last() as int == '0' as int + d,
        dec(d).len() == 1,
        dec(d)[0] as int == '0' as int + d,
    decreases n,
{
    lemma_dec_digits(n);
    assert forall|i: int| 0 <= i < dec(n).len() implies '0' <= #[trigger] dec(n)[i] <= '9' by {
        assert(digit_value(dec(n)[i]) is Some);
    }
    if n >= 10 {
        law_decimal_digits(n / 10, 0);
        assert(dec(n)[0] == dec(n / 10)[0]);
    }
    if n > 0 {
        let m = n * 10 + d;
        assert(m / 10 == n && m % 10 == d);
        assert(dec(m) == dec(n).push(crate::text::digit_char(d)));
        assert(dec(m).drop_last() =~= dec(n));
    }
}

/// Numbers are read as they are printed: nothing but digits behind at most
/// one plus sign, at least one of them, and not more than `max`. A digit
/// put behind a number makes it ten times as large, and that digit more.
pub proof fn law_numbers_are_read_digit_by_digit(s: Seq<char>, c: char, max: nat)
    ensures
        parse_unsigned(s, max) matches Some(v) ==> v <= max,
        parse_unsigned(seq![], max) is None,
        parse_unsigned(seq!['+'], max) is None,
        s.len() > 0 && s[0] != '+' ==> parse_unsigned(seq!['+'] + s, max) == parse_unsigned(s, max),
        parse_unsigned(s, max) is Some ==> forall|i: int|
            (if s[0] == '+' {
                1int
            } else {
                0int
            }) <= i < s.len() ==> '0' <= #[trigger] s[i] <= '9',
        '0' <= c <= '9' && c as int - '0' as int <= max ==> parse_unsigned(seq![c], max) == Some(
            (c as int - '0' as int) as nat,
        ),
        parse_unsigned(s, max) matches Some(v) ==> '0' <= c <= '9' ==> v * 10 + (c as int
            - '0' as int) <= max ==> parse_unsigned(s.push(c), max) == Some(
            (v * 10 + (c as int - '0' as int)) as nat,
        ),
        parse_unsigned(s, max) matches Some(v) ==> '0' <= c <= '9' ==> v * 10 + (c as int
            - '0' as int) > max ==> parse_unsigned(s.push(c), max) is None,
        s.len() > 0 && !('0' <= c <= '9') ==> parse_unsigned(s.push(c), max) is None,
{
    let e = Seq::<char>::empty();
    assert(seq!['+'].skip(1) =~= e);
    if s.len() > 0 && s[0] != '+' {
        assert((seq!['+'] + s).skip(1) =~= s);
    }
    if parse_unsigned(s, max) is Some {
        let body = crate::text::strip_plus(s);
        assert forall|i: int|
            (if s[0] == '+' {
                1int
            } else {
                0int
            }) <= i < s.len() implies '0' <= #[trigger] s[i] <= '9' by {
            if s[0] == '+' {
                assert(body[i - 1] == s[i]);
                assert(digit_value(body[i - 1]) is Some);
            } else {
                assert(digit_value(body[i]) is Some);
            }
        }
    }
    if '0' <= c <= '9' {
        assert(seq![c].drop_last() =~= e);
        assert(digits_value(e) == 0);
        assert(digits_value(seq![c]) == (c as int - '0' as int) as nat);
    }
    if s.len() > 0 {
        let t = s.push(c);
        let body = crate::text::strip_plus(s);
        let longer = crate::text::strip_plus(t);
        assert(longer =~= body.push(c));
        assert(longer.drop_last() =~= body);
        if all_digits(body) && '0' <= c <= '9' {
            assert(all_digits(longer));
        }
        if !('0' <= c <= '9') {
            assert(longer[longer.len() - 1] == c);
            assert(digit_value(longer[longer.len() - 1]) is None);
        }
    }
}

/// A negative number is printed with a minus sign before its size, and an
/// unsigned number read as a signed one keeps its bits.
pub proof fn law_signed_numbers(n: int, bits: u64)
    ensures
        n >= 0 ==> signed_dec(n) == dec(n as nat),
        n < 0 ==> signed_dec(n) == seq!['-'] + dec((-n) as nat),
        i64::MIN <= as_signed(bits) <= i64::MAX,
        (bits - as_signed(bits)) % 0x1_0000_0000_0000_0000 == 0,
{
}

/// Whether `a` and `b` agree up to place `k`, where `a` ends or has the
/// lower character.
pub open spec fn parts_at(a: Seq<char>, b: Seq<char>, k: int) -> bool {
    &&& 0 <= k <= a.len()
    &&& k < b.len()
    &&& forall|i: int| 0 <= i < k ==> a[i] == b[i]
    &&& k == a.len() || a[k] < b[k]
}

/// One text comes before another where it ends first or has the lower
/// character, at the first place at which they part.
pub proof fn law_text_order(a: Seq<char>, b: Seq<char>)
    ensures
        text_lt(a, b) <==> exists|k: int| #[trigger] parts_at(a, b, k),
    decreases a.len(),
{
    if a.len() > 0 && b.len() > 0 && a[0] == b[0] {
        let x = a.skip(1);
        let y = b.skip(1);
        law_text_order(x, y);
        if text_lt(a, b) {
            let k = choose|k: int| #[trigger] parts_at(x, y, k);
            assert forall|i: int| 0 <= i < k + 1 implies a[i] == b[i] by {
                if i > 0 {
                    assert(x[i - 1] == y[i - 1]);
                }
            }
            assert(parts_at(a, b, k + 1));
        }
        if exists|k: int| #[trigger] parts_at(a, b, k) {
            let k = choose|k: int| #[trigger] parts_at(a, b, k);
            assert forall|i: int| 0 <= i < k - 1 implies x[i] == y[i] by {
                assert(a[i + 1] == b[i + 1]);
            }
            assert(k > 0);
            assert(parts_at(x, y, k - 1));
        }
    } else if b.len() > 0 {
        if a.len() == 0 {
            assert(parts_at(a, b, 0));
        } else if a[0] < b[0] {
            assert(parts_at(a, b, 0));
        } else {
            assert forall|k: int| !#[trigger] parts_at(a, b, k) by {
                if parts_at(a, b, k) && k > 0 {
                    assert(a[0] == b[0]);
                }
            }
        }
    }
}

// ---- names ---------------------------------------------------------------------

proof fn lemma_same_value(a: Seq<char>, b: Seq<char>)
    requires
        all_digits(a),
        all_digits(b),
        a.len() == b.len(),
        digits_value(a) == digits_value(b),
    ensures
        a == b,
    decreases a.len(),
{
    if a.len() == 0 {
        assert(a =~= b);
    } else {
        let x = a.drop_last();
        let y = b.drop_last();
        assert(digit_value(a[a.len() - 1]) is Some);
        assert(digit_value(b[b.len() - 1]) is Some);
        assert forall|i: int| 0 <= i < x.len() implies digit_value(#[trigger] x[i]) is Some by {
            assert(x[i] == a[i]);
        }
        assert forall|i: int| 0 <= i < y.len() implies digit_value(#[trigger] y[i]) is Some by {
            assert(y[i] == b[i]);
        }
        lemma_same_value(x, y);
        assert(a =~= x.push(a.last()));
        assert(b =~= y.push(b.last()));
    }
}

/// An offset stands in a name as twenty characters from `0` to `9`: the
/// printed offset, with zeros before it.
pub proof fn law_offsets_are_padded(n: u64)
    ensures
        padded(n).len() == 20,
        forall|i: int| 0 <= i < 20 ==> '0' <= #[trigger] padded(n)[i] <= '9',
        dec(n as nat).len() <= 20,
        forall|i: int| 0 <= i < 20 - dec(n as nat).len() ==> #[trigger] padded(n)[i] == '0',
        padded(n).skip(20 - dec(n as nat).len()) == dec(n as nat),
{
    lemma_padded(n);
    assert forall|i: int| 0 <= i < 20 implies '0' <= #[trigger] padded(n)[i] <= '9' by {
        assert(digit_value(padded(n)[i]) is Some);
    }
    let d = dec(n as nat);
    assert(padded(n).skip(20 - d.len()) =~= d);
}

proof fn lemma_find(s: Seq<char>, c: char)
    ensures
        crate::envsubst::find_char(s, c) <= s.len(),
        crate::envsubst::find_char(s, c) < s.len() ==> s[crate::envsubst::find_char(s, c) as int]
            == c,
    decreases s.len(),
{
    if s.len() > 0 && s[0] != c {
        lemma_find(s.skip(1), c);
    }
}

/// A name gives the offsets `from` and `to` exactly where it is the name
/// of a batch with these offsets: both padded, with a hyphen between them,
/// a dot and the extension behind. Any other name gives none.
pub proof fn law_only_batch_names_give_ranges(name: Seq<char>, ext: Seq<char>, from: u64, to: u64)
    ensures
        named_range(name, ext) == Some((from, to)) <==> name == padded(from) + seq!['-'] + padded(to)
            + seq!['.'] + ext,
        batch_name(from, to, ext) == padded(from) + seq!['-'] + padded(to) + seq!['.'] + ext,
{
    reveal_strlit("-");
    reveal_strlit(".");
    assert("-"@ =~= seq!['-']);
    assert("."@ =~= seq!['.']);
    assert(batch_name(from, to, ext) =~= padded(from) + seq!['-'] + padded(to) + seq!['.'] + ext);
    law_names_give_their_range_back(from, to, ext);
    if named_range(name, ext) == Some((from, to)) {
        let s = crate::naming::stem(name, ext)->0;
        let h = crate::envsubst::find_char(s, '-') as int;
        lemma_find(s, '-');
        lemma_padded(from);
        lemma_padded(to);
        lemma_same_value(s.take(h), padded(from));
        lemma_same_value(s.skip(h + 1), padded(to));
        assert(s =~= s.take(h) + seq!['-'] + s.skip(h + 1));
        let suffix = seq!['.'] + ext;
        assert(name =~= s + name.skip(name.len() - suffix.len()));
        assert(name =~= padded(from) + seq!['-'] + padded(to) + seq!['.'] + ext);
    }
}

/// A name is that of an unfinished batch exactly where `.tmp.` occurs in
/// it.
pub proof fn law_unfinished_names(name: Seq<char>)
    ensures
        is_tmp(name) <==> exists|i: int|
            0 <= i <= name.len() - 5 && #[trigger] name.subrange(i, i + 5) == seq![
                '.',
                't',
                'm',
                'p',
                '.',
            ],
{
    let t = seq!['.', 't', 'm', 'p', '.'];
    if is_tmp(name) {
        let i = choose|i: int| #[trigger] tmp_at(name, i);
        assert(name.subrange(i, i + 5) =~= t);
    }
    if exists|i: int| 0 <= i <= name.len() - 5 && #[trigger] name.subrange(i, i + 5) == t {
        let i = choose|i: int| 0 <= i <= name.len() - 5 && #[trigger] name.subrange(i, i + 5) == t;
        let x = name.subrange(i, i + 5);
        assert(x[0] == name[i] && x[1] == name[i + 1] && x[2] == name[i + 2] && x[3] == name[i + 3]
            && x[4] == name[i + 4]);
        assert(tmp_at(name, i));
    }
}

/// The extension of a name is what stands behind its last dot.
pub proof fn law_extensions(name: Seq<char>, stem: Seq<char>, ext: Seq<char>)
    ensures
        extension(name) is None <==> !name.contains('.'),
        !ext.contains('.') ==> extension(stem + seq!['.'] + ext) == Some(ext),
        extension(name) matches Some(e) ==> !e.contains('.') && name.len() > e.len() && name
            == name.take(name.len() - e.len() - 1) + seq!['.'] + e,
    decreases name.len(), ext.len(),
{
    if name.len() > 0 {
        let init = name.drop_last();
        law_extensions(init, stem, ext);
        if init.contains('.') {
            let i = init.index_of('.');
            assert(name[i] == '.');
        }
        if name.contains('.') && name.last() != '.' {
            let i = name.index_of('.');
            assert(init[i] == '.');
        }
        if name.last() == '.' {
            assert(name[name.len() - 1] == '.');
            assert(name =~= name.take(name.len() - 1) + seq!['.'] + Seq::<char>::empty());
        } else if let Some(e) = extension(init) {
            let x = e.push(name.last());
            let head = init.take(init.len() - e.len() - 1);
            assert(init == head + seq!['.'] + e);
            assert(name =~= init.push(name.last()));
            assert(name.take(name.len() - x.len() - 1) =~= head);
            assert(init.push(name.last()) =~= head + seq!['.'] + x);
            assert(name =~= name.take(name.len() - x.len() - 1) + seq!['.'] + x);
            if x.contains('.') {
                let i = x.index_of('.');
                if i < e.len() {
                    assert(e[i] == '.');
                }
            }
        }
    }
    if !ext.contains('.') && ext.len() > 0 {
        let init = ext.drop_last();
        let full = stem + seq!['.'] + ext;
        if init.contains('.') {
            let i = init.index_of('.');
            assert(ext[i] == '.');
        }
        law_extensions(seq![], stem, init);
        assert(full.drop_last() =~= stem + seq!['.'] + init);
        assert(ext[ext.len() - 1] != '.') by {
            if ext[ext.len() - 1] == '.' {
                assert(ext.contains('.'));
            }
        }
        assert(init.push(ext.last()) =~= ext);
    }
    if ext.len() == 0 {
        let full = stem + seq!['.'] + ext;
        assert(full.last() == '.');
        assert(ext =~= seq![]);
    }
}

// ---- listings -------------------------------------------------------------------

/// Whether the name is that of a batch from `from` to `to`.
pub open spec fn names_batch(name: Seq<char>, ext: Seq<char>, from: u64, to: u64) -> bool {
    name == padded(from) + seq!['-'] + padded(to) + seq!['.'] + ext
}

/// A listed name is read as a batch exactly where it is the name of one in
/// this format that does not end before it starts. It is a fault where it
/// ends before it starts, or is the name of a batch in another format. Any
/// other file, and any unfinished batch, is passed over.
pub proof fn law_listed_names(
    name: Seq<char>,
    ext: Seq<char>,
    other: Seq<char>,
    from: u64,
    to: u64,
)
    requires
        !ext.contains('.'),
        !other.contains('.'),
        other != ext,
    ensures
        is_tmp(name) ==> entry(name, ext) == Ok::<Option<BatchView>, Seq<char>>(None),
        !is_tmp(name) && names_batch(name, ext, from, to) && from <= to ==> entry(name, ext) == Ok::<
            Option<BatchView>,
            Seq<char>,
        >(Some(BatchView { from, to, name })),
        !is_tmp(name) && names_batch(name, ext, from, to) && to < from ==> entry(name, ext) is Err,
        !is_tmp(name) && names_batch(name, other, from, to) ==> entry(name, ext) is Err,
        entry(name, ext) matches Ok(Some(b)) ==> !is_tmp(name) && b.name == name && b.from <= b.to
            && names_batch(name, ext, b.from, b.to),
        entry(name, ext) is Err ==> !is_tmp(name) && exists|e: Seq<char>, f: u64, t: u64| #[trigger]
            names_batch(name, e, f, t) && !e.contains('.') && (e != ext || t < f),
{
    law_only_batch_names_give_ranges(name, ext, from, to);
    law_only_batch_names_give_ranges(name, other, from, to);
    let stem = padded(from) + seq!['-'] + padded(to);
    law_extensions(name, stem, ext);
    law_extensions(name, stem, other);
    if names_batch(name, ext, from, to) {
        assert(name == stem + seq!['.'] + ext);
    }
    if names_batch(name, other, from, to) {
        assert(name == stem + seq!['.'] + other);
    }
    if let Ok(Some(b)) = entry(name, ext) {
        law_only_batch_names_give_ranges(name, ext, b.from, b.to);
    }
    if entry(name, ext) is Err {
        if crate::chain::is_foreign(name, ext) {
            let e = extension(name)->0;
            let r = named_range(name, e)->0;
            law_only_batch_names_give_ranges(name, e, r.0, r.1);
            assert(names_batch(name, e, r.0, r.1));
        } else {
            let r = named_range(name, ext)->0;
            law_only_batch_names_give_ranges(name, ext, r.0, r.1);
            assert(names_batch(name, ext, r.0, r.1));
        }
    }
}

/// A listing has a fault exactly where one of its names has one. A listing
/// of one name gives what that name stands for.
pub proof fn law_listing_faults(a: Seq<Seq<char>>, ext: Seq<char>)
    ensures
        entries(a, ext) is Err <==> exists|i: int|
            0 <= i < a.len() && entry(#[trigger] a[i], ext) is Err,
        entries(seq![], ext) == Ok::<Seq<BatchView>, Seq<char>>(seq![]),
        a.len() == 1 ==> match entry(a[0], ext) {
            Err(e) => entries(a, ext) == Err::<Seq<BatchView>, Seq<char>>(e),
            Ok(None) => entries(a, ext) == Ok::<Seq<BatchView>, Seq<char>>(seq![]),
            Ok(Some(x)) => entries(a, ext) == Ok::<Seq<BatchView>, Seq<char>>(seq![x]),
        },
    decreases a.len(),
{
    if a.len() > 0 {
        let init = a.drop_last();
        law_listing_faults(init, ext);
        if entries(init, ext) is Err {
            let i = choose|i: int| 0 <= i < init.len() && entry(#[trigger] init[i], ext) is Err;
            assert(entry(a[i], ext) is Err);
        } else {
            if exists|i: int| 0 <= i < a.len() && entry(#[trigger] a[i], ext) is Err {
                let i = choose|i: int| 0 <= i < a.len() && entry(#[trigger] a[i], ext) is Err;
                assert(i == a.len() - 1) by {
                    if i < init.len() {
                        assert(entry(init[i], ext) is Err);
                    }
                }
            }
            if entries(a, ext) is Err {
                assert(entry(a[a.len() - 1], ext) is Err);
            }
        }
    }
    if a.len() == 1 {
        assert(a.drop_last() =~= Seq::<Seq<char>>::empty());
        if let Ok(Some(x)) = entry(a[0], ext) {
            assert(Seq::<BatchView>::empty().push(x) =~= seq![x]);
        }
    }
}

/// The batches of two listings, one behind the other, are those of the
/// first and then those of the second. The first fault counts.
pub proof fn law_listings_add_up(a: Seq<Seq<char>>, b: Seq<Seq<char>>, ext: Seq<char>)
    ensures
        entries(a, ext) is Err ==> entries(a + b, ext) == entries(a, ext),
        entries(a, ext) is Ok && entries(b, ext) is Ok ==> entries(a + b, ext) == Ok::<
            Seq<BatchView>,
            Seq<char>,
        >(entries(a, ext)->Ok_0 + entries(b, ext)->Ok_0),
        entries(a, ext) is Ok && entries(b, ext) is Err ==> entries(a + b, ext) == entries(b, ext),
    decreases b.len(),
{
    if b.len() == 0 {
        assert(a + b =~= a);
        assert(entries(b, ext) == Ok::<Seq<BatchView>, Seq<char>>(seq![]));
        if let Ok(s) = entries(a, ext) {
            assert(s + Seq::<BatchView>::empty() =~= s);
        }
    } else {
        let tail = b.drop_last();
        law_listings_add_up(a, tail, ext);
        assert((a + b).drop_last() =~= a + tail);
        assert((a + b).last() == b.last());
        if entries(a, ext) is Ok && entries(tail, ext) is Ok {
            let s = entries(a, ext)->Ok_0;
            let t = entries(tail, ext)->Ok_0;
            if let Ok(Some(x)) = entry(b.last(), ext) {
                assert((s + t).push(x) =~= s + t.push(x));
            }
        }
    }
}

/// Whether the batch is one that records are read from: it is listed under
/// the name of a finished batch in this format.
pub open spec fn is_readable(b: BatchView, name: Seq<char>, ext: Seq<char>) -> bool {
    b.name == name && names_batch(name, ext, b.from, b.to) && !is_tmp(name)
}

/// The batches that records are read from are those listed as finished
/// batches in this format, each as often as it is listed, and no other.
/// Those of two listings, one behind the other, are those of the first and
/// then those of the second.
pub proof fn law_readable_batches(
    a: Seq<Seq<char>>,
    b: Seq<Seq<char>>,
    name: Seq<char>,
    ext: Seq<char>,
    x: BatchView,
)
    ensures
        readable(a + b, ext) == readable(a, ext) + readable(b, ext),
        is_readable(x, name, ext) ==> readable(seq![name], ext) == seq![x],
        (forall|y: BatchView| !#[trigger] is_readable(y, name, ext)) ==> readable(seq![name], ext)
            == Seq::<BatchView>::empty(),
    decreases b.len(),
{
    let one = seq![name];
    assert(one.drop_last() =~= Seq::<Seq<char>>::empty());
    assert(readable(one.drop_last(), ext) =~= Seq::<BatchView>::empty());
    law_only_batch_names_give_ranges(name, ext, x.from, x.to);
    if is_readable(x, name, ext) {
        assert(Seq::<BatchView>::empty().push(x) =~= seq![x]);
    }
    if forall|y: BatchView| !#[trigger] is_readable(y, name, ext) {
        if let Some((from, to)) = named_range(name, ext) {
            law_only_batch_names_give_ranges(name, ext, from, to);
            assert(!is_readable(BatchView { from, to, name }, name, ext));
        }
    }
    if b.len() == 0 {
        assert(a + b =~= a);
        assert(readable(a, ext) + readable(b, ext) =~= readable(a, ext));
    } else {
        law_readable_batches(a, b.drop_last(), name, ext, x);
        assert((a + b).drop_last() =~= a + b.drop_last());
        assert((a + b).last() == b.last());
        assert(readable(a + b, ext) =~= readable(a, ext) + readable(b, ext));
    }
}

/// Stored records are read file by file in the order of the offsets at
/// which the files start, whatever the order of the listing. No file is
/// left out and none is read twice.
pub proof fn law_files_are_read_in_offset_order(names: Seq<Seq<char>>, ext: Seq<char>)
    ensures
        ({
            let r = in_order(Order::Start, readable(names, ext));
            &&& forall|i: int, j: int| 0 <= i < j < r.len() ==> r[i].from <= r[j].from
            &&& r.to_multiset() == readable(names, ext).to_multiset()
            &&& r.len() == readable(names, ext).len()
        }),
{
    let r = in_order(Order::Start, readable(names, ext));
    law_ordering_is_a_permutation(Order::Start, readable(names, ext));
    assert forall|i: int, j: int| 0 <= i < j < r.len() implies r[i].from <= r[j].from by {
        assert(!crate::chain::precedes(Order::Start, r[j], r[i]));
    }
}

// ---- positions ------------------------------------------------------------------

/// Whether the batch holds the offset.
pub open spec fn has_offset(b: BatchView, o: int) -> bool {
    b.from <= o <= b.to
}

/// Whether some batch holds the offset.
pub open spec fn is_stored(s: Seq<BatchView>, o: int) -> bool {
    exists|i: int| 0 <= i < s.len() && #[trigger] has_offset(s[i], o)
}

proof fn lemma_tiled(s: Seq<BatchView>, next: int, p: int)
    requires
        all_fit(s),
        next <= p,
        forall|i: int, j: int| 0 <= i < j < s.len() ==> s[i].from <= s[j].from,
        forall|i: int, j: int| 0 <= i < j < s.len() ==> s[i].to < s[j].from || s[j].to < s[i].from,
        forall|i: int| 0 <= i < s.len() ==> next <= (#[trigger] s[i]).from && s[i].to < p,
        forall|o: int| next <= o < p ==> #[trigger] is_stored(s, o),
    ensures
        reach(s, next) == Ok::<int, Seq<char>>(p),
    decreases s.len(),
{
    if s.len() == 0 {
        if next < p {
            assert(is_stored(s, next));
            let i = choose|i: int| 0 <= i < s.len() && #[trigger] has_offset(s[i], next);
            assert(false);
        }
    } else {
        assert(s[0].from <= s[0].to && s[0].to < p && next <= s[0].from);
        assert(is_stored(s, next));
        let k = choose|i: int| 0 <= i < s.len() && #[trigger] has_offset(s[i], next);
        assert(s[0].from <= s[k].from);
        assert(s[0].from == next);
        let rest = s.skip(1);
        let upto = s[0].to + 1;
        assert forall|i: int| 0 <= i < rest.len() implies upto <= (#[trigger] rest[i]).from
            && rest[i].to < p && rest[i].from <= rest[i].to && rest[i].to < u64::MAX by {
            assert(rest[i] == s[i + 1]);
            assert(s[0].from <= s[i + 1].from);
            assert(s[0].to < s[i + 1].from || s[i + 1].to < s[0].from);
            assert(s[i + 1].from <= s[i + 1].to);
        }
        assert forall|i: int, j: int| 0 <= i < j < rest.len() implies rest[i].from <= rest[j].from
            && (rest[i].to < rest[j].from || rest[j].to < rest[i].from) by {
            assert(rest[i] == s[i + 1] && rest[j] == s[j + 1]);
        }
        assert forall|o: int| upto <= o < p implies #[trigger] is_stored(rest, o) by {
            assert(is_stored(s, o));
            let i = choose|i: int| 0 <= i < s.len() && #[trigger] has_offset(s[i], o);
            assert(i > 0);
            assert(has_offset(rest[i - 1], o));
        }
        lemma_tiled(rest, upto, p);
    }
}

/// Whether no two batches hold the same offset.
pub open spec fn disjoint(s: Seq<BatchView>) -> bool {
    forall|i: int, j: int|
        0 <= i < s.len() && 0 <= j < s.len() && i != j ==> s[i].to < s[j].from || s[j].to < s[i].from
}

proof fn lemma_disjoint_in_order(o: Order, s: Seq<BatchView>)
    requires
        all_fit(s),
        disjoint(s),
    ensures
        disjoint(in_order(o, s)),
        all_fit(in_order(o, s)),
{
    broadcast use vstd::seq_lib::group_to_multiset_ensures;

    let r = in_order(o, s);
    law_ordering_is_a_permutation(o, s);
    assert forall|i: int| 0 <= i < r.len() implies (#[trigger] r[i]).from <= r[i].to && r[i].to
        < u64::MAX by {
        assert(s.contains(r[i]));
        let k = s.index_of(r[i]);
        assert(s[k].from <= s[k].to);
    }
    assert(s.no_duplicates()) by {
        assert forall|i: int, j: int| 0 <= i < s.len() && 0 <= j < s.len() && i != j implies s[i]
            != s[j] by {
            assert(s[i].from <= s[i].to);
            assert(s[i].to < s[j].from || s[j].to < s[i].from);
        }
    }
    s.lemma_multiset_has_no_duplicates();
    r.lemma_multiset_has_no_duplicates_conv();
    assert forall|i: int, j: int|
        0 <= i < r.len() && 0 <= j < r.len() && i != j implies r[i].to < r[j].from || r[j].to
        < r[i].from by {
        assert(r[i] != r[j]);
        let a = s.index_of(r[i]);
        let b = s.index_of(r[j]);
        assert(s[a] == r[i] && s[b] == r[j]);
    }
}

/// A chain that holds every offset below `p` exactly once, and no other,
/// is accepted at `p`, in whatever order it is listed.
pub proof fn law_gapless_chain_is_accepted(names: Seq<Seq<char>>, ext: Seq<char>, p: int)
    requires
        0 <= p,
        entries(names, ext) is Ok,
        all_fit(entries(names, ext)->Ok_0),
        ({
            let s = entries(names, ext)->Ok_0;
            &&& disjoint(s)
            &&& forall|i: int| 0 <= i < s.len() ==> (#[trigger] s[i]).to < p
            &&& forall|o: int| 0 <= o < p ==> #[trigger] is_stored(s, o)
        }),
    ensures
        chain_position(names, ext) == Ok::<int, Seq<char>>(p),
{
    broadcast use vstd::seq_lib::group_to_multiset_ensures;

    let s = entries(names, ext)->Ok_0;
    let r = in_order(Order::Range, s);
    law_ordering_is_a_permutation(Order::Range, s);
    lemma_disjoint_in_order(Order::Range, s);
    assert forall|i: int, j: int| 0 <= i < j < r.len() implies r[i].from <= r[j].from by {
        assert(!crate::chain::precedes(Order::Range, r[j], r[i]));
    }
    assert forall|i: int| 0 <= i < r.len() implies (#[trigger] r[i]).to < p by {
        assert(s.contains(r[i]));
        let k = s.index_of(r[i]);
        assert(s[k].to < p);
    }
    assert forall|o: int| 0 <= o < p implies #[trigger] is_stored(r, o) by {
        assert(is_stored(s, o));
        let k = choose|i: int| 0 <= i < s.len() && #[trigger] has_offset(s[i], o);
        assert(s.to_multiset().count(s[k]) > 0);
        assert(r.contains(s[k]));
        let i = r.index_of(s[k]);
        assert(has_offset(r[i], o));
    }
    lemma_tiled(r, 0, p);
}

proof fn lemma_ends(s: Seq<BatchView>, prev: Option<u64>)
    requires
        all_fit(s),
        forall|i: int, j: int| 0 <= i < j < s.len() ==> s[i].to <= s[j].to,
    ensures
        last_end(s, prev) is Ok <==> {
            &&& forall|i: int, j: int| 0 <= i < j < s.len() ==> s[i].to < s[j].from
            &&& prev is Some && s.len() > 0 ==> prev->0 < s[0].from
        },
        last_end(s, prev) is Ok ==> last_end(s, prev)->Ok_0 == if s.len() > 0 {
            Some(s.last().to)
        } else {
            prev
        },
    decreases s.len(),
{
    if s.len() > 0 {
        let rest = s.skip(1);
        assert forall|i: int| 0 <= i < rest.len() implies (#[trigger] rest[i]).from <= rest[i].to
            && rest[i].to < u64::MAX by {
            assert(rest[i] == s[i + 1]);
        }
        assert forall|i: int, j: int| 0 <= i < j < rest.len() implies rest[i].to <= rest[j].to by {
            assert(rest[i] == s[i + 1] && rest[j] == s[j + 1]);
        }
        lemma_ends(rest, Some(s[0].to));
        if rest.len() > 0 {
            assert(rest.last() == s.last());
            assert(rest[0] == s[1]);
        }
        if last_end(s, prev) is Ok {
            assert forall|i: int, j: int| 0 <= i < j < s.len() implies s[i].to < s[j].from by {
                if i > 0 {
                    assert(rest[i - 1].to < rest[j - 1].from);
                } else if j > 1 {
                    assert(rest[0].to < rest[j - 1].from);
                    assert(s[1].from <= s[1].to);
                }
            }
        }
        if forall|i: int, j: int| 0 <= i < j < s.len() ==> s[i].to < s[j].from {
            assert forall|i: int, j: int| 0 <= i < j < rest.len() implies rest[i].to
                < rest[j].from by {
                assert(s[i + 1].to < s[j + 1].from);
            }
        }
    }
}

/// Snapshots are accepted exactly where no two hold the same offset; gaps
/// between them are fine. Then the latest is one that ends last, and the
/// position is right after it. Without one the position is zero.
pub proof fn law_snapshots_may_leave_gaps(names: Seq<Seq<char>>, ext: Seq<char>)
    requires
        entries(names, ext) is Ok,
        all_fit(entries(names, ext)->Ok_0),
    ensures
        ({
            let s = entries(names, ext)->Ok_0;
            &&& snapshot_position(names, ext) is Ok <==> disjoint(s)
            &&& snapshot_position(names, ext) matches Ok((p, latest)) ==> if s.len() == 0 {
                p == 0 && latest is None
            } else {
                exists|i: int|
                    0 <= i < s.len() && latest == Some((#[trigger] s[i]).name) && p == s[i].to + 1
                        && forall|j: int| 0 <= j < s.len() ==> (#[trigger] s[j]).to <= s[i].to
            }
        }),
{
    broadcast use vstd::seq_lib::group_to_multiset_ensures;

    let s = entries(names, ext)->Ok_0;
    let r = in_order(Order::End, s);
    law_ordering_is_a_permutation(Order::End, s);
    assert forall|i: int| 0 <= i < r.len() implies (#[trigger] r[i]).from <= r[i].to && r[i].to
        < u64::MAX by {
        assert(s.contains(r[i]));
        let k = s.index_of(r[i]);
        assert(s[k].from <= s[k].to);
    }
    assert forall|i: int, j: int| 0 <= i < j < r.len() implies r[i].to <= r[j].to by {
        assert(!crate::chain::precedes(Order::End, r[j], r[i]));
    }
    lemma_ends(r, None);
    if disjoint(s) {
        lemma_disjoint_in_order(Order::End, s);
        assert forall|i: int, j: int| 0 <= i < j < r.len() implies r[i].to < r[j].from by {
            assert(r[i].to <= r[j].to);
            assert(r[j].from <= r[j].to && r[i].from <= r[i].to);
        }
    }
    if last_end(r, None) is Ok {
        assert(r.no_duplicates()) by {
            assert forall|i: int, j: int|
                0 <= i < r.len() && 0 <= j < r.len() && i != j implies r[i] != r[j] by {
                assert(r[i].from <= r[i].to);
                if i < j {
                    assert(r[i].to < r[j].from);
                } else {
                    assert(r[j].to < r[i].from);
                }
            }
        }
        r.lemma_multiset_has_no_duplicates();
        s.lemma_multiset_has_no_duplicates_conv();
        assert forall|i: int, j: int|
            0 <= i < s.len() && 0 <= j < s.len() && i != j implies s[i].to < s[j].from || s[j].to
            < s[i].from by {
            assert(s.to_multiset().count(s[i]) > 0 && s.to_multiset().count(s[j]) > 0);
            assert(r.contains(s[i]) && r.contains(s[j]));
            let a = r.index_of(s[i]);
            let b = r.index_of(s[j]);
            assert(s[i] != s[j]);
            if a < b {
                assert(r[a].to < r[b].from);
            } else {
                assert(r[b].to < r[a].from);
            }
        }
        if s.len() > 0 {
            let last = r[r.len() - 1];
            assert(s.contains(last));
            let i = s.index_of(last);
            assert forall|j: int| 0 <= j < s.len() implies (#[trigger] s[j]).to <= s[i].to by {
                assert(s.to_multiset().count(s[j]) > 0);
                assert(r.contains(s[j]));
                let k = r.index_of(s[j]);
                assert(r[k].to <= last.to);
            }
            assert(s[i].name == last.name);
        }
    }
}

/// A path behind another one: at the root it stands alone, and else exactly
/// one slash parts the two, unless the first is empty.
pub proof fn law_joined_paths(base: Seq<char>, part: Seq<char>)
    ensures
        part.len() > 0 && part[0] == '/' ==> joined(base, part) == part,
        !(part.len() > 0 && part[0] == '/') ==> {
            &&& base.len() == 0 ==> joined(base, part) == part
            &&& base.len() > 0 && base.last() == '/' ==> joined(base, part) == base + part
            &&& base.len() > 0 && base.last() != '/' ==> joined(base, part) == base + seq!['/']
                + part
        },
{
    reveal_strlit("/");
    assert("/"@ =~= seq!['/']);
    if base.len() == 0 {
        assert(base + part =~= part);
    }
}

/// The words of what is wrong with a listed name.
pub proof fn law_words_of_listing_faults(
    name: Seq<char>,
    ext: Seq<char>,
    other: Seq<char>,
    from: u64,
    to: u64,
)
    requires
        !ext.contains('.'),
        !other.contains('.'),
        other != ext,
        !is_tmp(name),
    ensures
        names_batch(name, ext, from, to) && to < from ==> entry(name, ext) == Err::<
            Option<BatchView>,
            Seq<char>,
        >(name + ": to < from"@),
        names_batch(name, other, from, to) ==> entry(name, ext) == Err::<
            Option<BatchView>,
            Seq<char>,
        >(
            name + ": extension '"@ + other + "' does not match configured format '"@ + ext + "'"@,
        ),
{
    law_only_batch_names_give_ranges(name, ext, from, to);
    law_only_batch_names_give_ranges(name, other, from, to);
    let stem = padded(from) + seq!['-'] + padded(to);
    law_extensions(name, stem, ext);
    law_extensions(name, stem, other);
    if names_batch(name, ext, from, to) {
        assert(name == stem + seq!['.'] + ext);
    }
    if names_batch(name, other, from, to) {
        assert(name == stem + seq!['.'] + other);
    }
}

/// The words of what is wrong with batches in order: the first one that
/// does not start where the one before it ended, or the first that starts
/// before that.
pub proof fn law_words_of_chain_faults(b: BatchView, rest: Seq<BatchView>, next: nat, prev: u64)
    ensures
        b.from != next ==> reach(seq![b] + rest, next as int) == Err::<int, Seq<char>>(
            "gap or overlap in chain: expected from="@ + dec(next) + ", found "@ + dec(
                b.from as nat,
            ) + "-"@ + dec(b.to as nat),
        ),
        b.from == next ==> reach(seq![b] + rest, next as int) == reach(rest, b.to + 1),
        b.from <= prev ==> last_end(seq![b] + rest, Some(prev)) == Err::<Option<u64>, Seq<char>>(
            "overlap in compaction chain: "@ + dec(b.from as nat) + "-"@ + dec(b.to as nat)
                + " overlaps prior to="@ + dec(prev as nat),
        ),
        b.from > prev ==> last_end(seq![b] + rest, Some(prev)) == last_end(rest, Some(b.to)),
{
    assert((seq![b] + rest).skip(1) =~= rest);
}

/// A listing fits where no batch in this format ends at the largest offset.
pub proof fn law_listings_that_fit(names: Seq<Seq<char>>, ext: Seq<char>)
    ensures
        ends_fit(names, ext) <==> forall|i: int, from: u64|
            0 <= i < names.len() ==> !#[trigger] names_batch(names[i], ext, from, u64::MAX),
{
    if ends_fit(names, ext) {
        assert forall|i: int, from: u64| 0 <= i < names.len() implies !#[trigger] names_batch(
            names[i],
            ext,
            from,
            u64::MAX,
        ) by {
            law_only_batch_names_give_ranges(names[i], ext, from, u64::MAX);
        }
    } else {
        let i = choose|i: int|
            0 <= i < names.len() && !(named_range(#[trigger] names[i], ext) matches Some((from, to))
                ==> to < u64::MAX);
        let r = named_range(names[i], ext)->0;
        law_only_batch_names_give_ranges(names[i], ext, r.0, r.1);
        assert(names_batch(names[i], ext, r.0, u64::MAX));
    }
}

} // verus!
