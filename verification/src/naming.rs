//! The names of stored batches.
//!
//! A batch is stored as `<from>-<to>.<ext>`, where `from` is the offset at
//! which the batch starts and `to` the offset of its last record. Both are
//! padded with zeros to the same width, so that a listing in the order of
//! names is in the order of offsets.
use vstd::prelude::*;
use vstd::string::*;

use crate::envsubst::{find_char, sub_chars};
use crate::text::{
    all_digits, chars_of, dec, decimal, digit_value, digits_value, lemma_dec_digits, parse_digits,
    text_lt,
};

verus! {

/// The number of digits of an offset in a name: enough for every `u64`.
pub const OFFSET_WIDTH: usize = 20;

/// `n` zeros.
pub open spec fn zeros(n: nat) -> Seq<char> {
    Seq::new(n, |i: int| '0')
}

/// An offset as it stands in a name.
pub open spec fn padded(n: u64) -> Seq<char> {
    let d = dec(n as nat);
    if d.len() < 20 {
        zeros((20 - d.len()) as nat) + d
    } else {
        d
    }
}

/// The name of a batch.
pub open spec fn batch_name(from: u64, to: u64, ext: Seq<char>) -> Seq<char> {
    padded(from) + "-"@ + padded(to) + "."@ + ext
}

/// `name` without `.ext` at its end, if it ends so.
pub open spec fn stem(name: Seq<char>, ext: Seq<char>) -> Option<Seq<char>> {
    let suffix = seq!['.'] + ext;
    if name.len() >= suffix.len() && name.skip(name.len() - suffix.len()) == suffix {
        Some(name.take(name.len() - suffix.len()))
    } else {
        None
    }
}

/// The offset that a part of a name stands for: exactly `OFFSET_WIDTH`
/// digits that give a `u64`.
pub open spec fn part_offset(p: Seq<char>) -> Option<u64> {
    if p.len() == OFFSET_WIDTH && all_digits(p) && digits_value(p) <= u64::MAX {
        Some(digits_value(p) as u64)
    } else {
        None
    }
}

/// The offsets that a name gives: those before and after the first hyphen
/// of its stem.
pub open spec fn named_range(name: Seq<char>, ext: Seq<char>) -> Option<(u64, u64)> {
    match stem(name, ext) {
        None => None,
        Some(s) => {
            let h = find_char(s, '-') as int;
            if h >= s.len() {
                None
            } else {
                match (part_offset(s.take(h)), part_offset(s.skip(h + 1))) {
                    (Some(f), Some(t)) => Some((f, t)),
                    _ => None,
                }
            }
        },
    }
}

proof fn lemma_strlits()
    ensures
        "-"@ == seq!['-'],
        "."@ == seq!['.'],
        "/"@ == seq!['/'],
{
    reveal_strlit("-");
    reveal_strlit(".");
    reveal_strlit("/");
    assert("-"@ =~= seq!['-']);
    assert("."@ =~= seq!['.']);
    assert("/"@ =~= seq!['/']);
}

/// `10^n`.
pub open spec fn pow10(n: nat) -> nat
    decreases n,
{
    if n == 0 {
        1
    } else {
        10 * pow10((n - 1) as nat)
    }
}

/// A run of digits denotes less than `10^length`.
proof fn lemma_value_bound(s: Seq<char>)
    requires
        all_digits(s),
    ensures
        digits_value(s) < pow10(s.len()),
    decreases s.len(),
{
    if s.len() > 0 {
        let init = s.drop_last();
        assert forall|i: int| 0 <= i < init.len() implies digit_value(#[trigger] init[i]) is Some by {
            assert(init[i] == s[i]);
        }
        lemma_value_bound(init);
        assert(digit_value(s[s.len() - 1]) is Some);
    }
}

/// A printed number is below `10^length`, and at least `10^(length-1)`
/// unless it is zero.
proof fn lemma_dec_len(n: nat)
    ensures
        dec(n).len() > 0,
        n > 0 ==> n >= pow10((dec(n).len() - 1) as nat),
    decreases n,
{
    if n >= 10 {
        lemma_dec_len(n / 10);
        assert(dec(n).len() == dec(n / 10).len() + 1);
    } else {
        assert(dec(n).len() == 1);
        assert(pow10(0) == 1);
    }
}

proof fn lemma_pow10_monotone(a: nat, b: nat)
    requires
        a <= b,
    ensures
        pow10(a) <= pow10(b),
    decreases b - a,
{
    if a < b {
        lemma_pow10_monotone(a, (b - 1) as nat);
    }
}

proof fn lemma_pow10_20()
    ensures
        pow10(20) == 100_000_000_000_000_000_000,
{
    assert(pow10(0) == 1);
    assert(pow10(1) == 10);
    assert(pow10(2) == 100);
    assert(pow10(3) == 1_000);
    assert(pow10(4) == 10_000);
    assert(pow10(5) == 100_000);
    assert(pow10(6) == 1_000_000);
    assert(pow10(7) == 10_000_000);
    assert(pow10(8) == 100_000_000);
    assert(pow10(9) == 1_000_000_000);
    assert(pow10(10) == 10_000_000_000);
    assert(pow10(11) == 100_000_000_000);
    assert(pow10(12) == 1_000_000_000_000);
    assert(pow10(13) == 10_000_000_000_000);
    assert(pow10(14) == 100_000_000_000_000);
    assert(pow10(15) == 1_000_000_000_000_000);
    assert(pow10(16) == 10_000_000_000_000_000);
    assert(pow10(17) == 100_000_000_000_000_000);
    assert(pow10(18) == 1_000_000_000_000_000_000);
    assert(pow10(19) == 10_000_000_000_000_000_000);
}

/// Leading zeros do not change what a run of digits denotes.
proof fn lemma_zeros_value(k: nat, s: Seq<char>)
    requires
        all_digits(s),
    ensures
        all_digits(zeros(k) + s),
        digits_value(zeros(k) + s) == digits_value(s),
    decreases s.len(),
{
    let t = zeros(k) + s;
    assert forall|i: int| 0 <= i < t.len() implies digit_value(#[trigger] t[i]) is Some by {
        if i >= k {
            assert(t[i] == s[i - k]);
        }
    }
    if s.len() > 0 {
        let init = s.drop_last();
        assert forall|i: int| 0 <= i < init.len() implies digit_value(#[trigger] init[i]) is Some by {
            assert(init[i] == s[i]);
        }
        lemma_zeros_value(k, init);
        assert(t.drop_last() =~= zeros(k) + init);
        assert(t.last() == s.last());
    } else {
        assert(t =~= zeros(k));
        lemma_all_zeros(k);
    }
}

proof fn lemma_all_zeros(k: nat)
    ensures
        digits_value(zeros(k)) == 0,
    decreases k,
{
    if k > 0 {
        lemma_all_zeros((k - 1) as nat);
        assert(zeros(k).drop_last() =~= zeros((k - 1) as nat));
    }
}

/// A padded offset has the fixed width and denotes the offset.
pub proof fn lemma_padded(n: u64)
    ensures
        padded(n).len() == 20,
        all_digits(padded(n)),
        digits_value(padded(n)) == n,
{
    let d = dec(n as nat);
    lemma_dec_digits(n as nat);
    lemma_dec_len(n as nat);
    if d.len() > 20 {
        lemma_pow10_20();
        lemma_pow10_monotone(20, (d.len() - 1) as nat);
        assert(false);
    }
    if d.len() < 20 {
        lemma_zeros_value((20 - d.len()) as nat, d);
    }
}

proof fn lemma_no_hyphen(s: Seq<char>, rest: Seq<char>)
    requires
        all_digits(s),
    ensures
        find_char(s + seq!['-'] + rest, '-') == s.len(),
    decreases s.len(),
{
    let t = s + seq!['-'] + rest;
    if s.len() > 0 {
        assert(digit_value(s[0]) is Some);
        assert forall|i: int| 0 <= i < s.skip(1).len() implies digit_value(
            #[trigger] s.skip(1)[i],
        ) is Some by {
            assert(s.skip(1)[i] == s[i + 1]);
        }
        lemma_no_hyphen(s.skip(1), rest);
        assert(t.skip(1) =~= s.skip(1) + seq!['-'] + rest);
        assert(t[0] == s[0]);
    } else {
        assert(t[0] == '-');
    }
}

/// A name gives back the offsets that it was made from.
pub proof fn law_names_give_their_range_back(from: u64, to: u64, ext: Seq<char>)
    ensures
        named_range(batch_name(from, to, ext), ext) == Some((from, to)),
{
    lemma_strlits();
    let name = batch_name(from, to, ext);
    let suffix = seq!['.'] + ext;
    let s = padded(from) + seq!['-'] + padded(to);
    assert(name =~= s + suffix);
    assert(name.skip(name.len() - suffix.len()) =~= suffix);
    assert(name.take(name.len() - suffix.len()) =~= s);
    lemma_padded(from);
    lemma_padded(to);
    lemma_no_hyphen(padded(from), padded(to));
    let h = find_char(s, '-') as int;
    assert(s.take(h) =~= padded(from));
    assert(s.skip(h + 1) =~= padded(to));
}

/// The value of a run of digits by its first digit.
proof fn lemma_value_front(s: Seq<char>)
    requires
        all_digits(s),
        s.len() > 0,
    ensures
        digits_value(s) == digit_value(s[0])->0 * pow10((s.len() - 1) as nat) + digits_value(
            s.skip(1),
        ),
        all_digits(s.skip(1)),
    decreases s.len(),
{
    assert forall|i: int| 0 <= i < s.skip(1).len() implies digit_value(
        #[trigger] s.skip(1)[i],
    ) is Some by {
        assert(s.skip(1)[i] == s[i + 1]);
    }
    assert(digit_value(s[0]) is Some);
    if s.len() == 1 {
        assert(s.drop_last() =~= Seq::<char>::empty());
        assert(s.skip(1) =~= Seq::<char>::empty());
        assert(digits_value(s.drop_last()) == 0);
        assert(digits_value(s.skip(1)) == 0);
        assert(pow10(0) == 1);
        assert(digits_value(s) == digit_value(s[0])->0);
        assert(digit_value(s[0])->0 * pow10(0) == digit_value(s[0])->0) by (nonlinear_arith)
            requires
                pow10(0) == 1,
        ;
    } else {
        let init = s.drop_last();
        assert forall|i: int| 0 <= i < init.len() implies digit_value(#[trigger] init[i]) is Some by {
            assert(init[i] == s[i]);
        }
        lemma_value_front(init);
        let tail = s.skip(1);
        assert(tail.drop_last() =~= init.skip(1));
        assert(tail.last() == s.last());
        let d = digit_value(s[0])->0;
        let p = pow10((init.len() - 1) as nat);
        assert(pow10((s.len() - 1) as nat) == 10 * p);
        let w = digits_value(init.skip(1));
        let l = digit_value(s.last())->0;
        assert(digit_value(s[s.len() - 1]) is Some);
        assert(init[0] == s[0]);
        assert(digits_value(init) == d * p + w);
        assert(digits_value(s) == (d * p + w) * 10 + l);
        assert(digits_value(tail) == w * 10 + l);
        assert((d * p + w) * 10 + l == d * (10 * p) + (w * 10 + l)) by (nonlinear_arith);
    }
}

proof fn lemma_order(a: Seq<char>, b: Seq<char>)
    requires
        all_digits(a),
        all_digits(b),
        a.len() == b.len(),
        digits_value(a) < digits_value(b),
    ensures
        text_lt(a, b),
    decreases a.len(),
{
    if a.len() == 0 {
        assert(digits_value(a) == 0);
        assert(digits_value(b) == 0);
    } else {
        lemma_value_front(a);
        lemma_value_front(b);
        lemma_value_bound(a.skip(1));
        lemma_value_bound(b.skip(1));
        let p = pow10((a.len() - 1) as nat);
        let x = digit_value(a[0])->0;
        let y = digit_value(b[0])->0;
        assert(digit_value(a[0]) is Some && digit_value(b[0]) is Some);
        let u = digits_value(a.skip(1));
        let v = digits_value(b.skip(1));
        assert(x * p + u < y * p + v);
        if x > y {
            assert(x * p >= (y + 1) * p) by (nonlinear_arith)
                requires
                    x >= y + 1,
            ;
            assert((y + 1) * p == y * p + p) by (nonlinear_arith);
            assert(false);
        }
        if x == y {
            assert(a[0] == b[0]);
            lemma_order(a.skip(1), b.skip(1));
        }
    }
}

/// Padded offsets are in the order of their texts exactly when they are in
/// the order of their values.
pub proof fn law_names_sort_by_offset(a: u64, b: u64)
    ensures
        a < b <==> text_lt(padded(a), padded(b)),
{
    lemma_padded(a);
    lemma_padded(b);
    crate::text::lemma_text_lt_total(padded(a), padded(b));
    if a < b {
        lemma_order(padded(a), padded(b));
    } else if b < a {
        lemma_order(padded(b), padded(a));
    }
}

proof fn lemma_lt_by_prefix(a: Seq<char>, b: Seq<char>, u: Seq<char>, v: Seq<char>)
    requires
        a.len() == b.len(),
        text_lt(a, b),
    ensures
        text_lt(a + u, b + v),
    decreases a.len(),
{
    if a[0] == b[0] {
        lemma_lt_by_prefix(a.skip(1), b.skip(1), u, v);
        assert((a + u).skip(1) =~= a.skip(1) + u);
        assert((b + v).skip(1) =~= b.skip(1) + v);
    }
}

/// What comes behind a common beginning decides.
proof fn lemma_lt_behind(p: Seq<char>, u: Seq<char>, v: Seq<char>)
    requires
        text_lt(u, v),
    ensures
        text_lt(p + u, p + v),
    decreases p.len(),
{
    if p.len() == 0 {
        assert(p + u =~= u);
        assert(p + v =~= v);
    } else {
        lemma_lt_behind(p.skip(1), u, v);
        assert((p + u).skip(1) =~= p.skip(1) + u);
        assert((p + v).skip(1) =~= p.skip(1) + v);
    }
}

/// A listing of batches in the order of their names is in the order of
/// the offsets at which they start, and where these are equal of the
/// offsets at which they end.
pub proof fn law_batches_list_in_offset_order(
    from_a: u64,
    to_a: u64,
    from_b: u64,
    to_b: u64,
    ext: Seq<char>,
)
    requires
        from_a < from_b || (from_a == from_b && to_a < to_b),
    ensures
        text_lt(batch_name(from_a, to_a, ext), batch_name(from_b, to_b, ext)),
{
    lemma_padded(from_a);
    lemma_padded(from_b);
    let u = "-"@ + padded(to_a) + "."@ + ext;
    let v = "-"@ + padded(to_b) + "."@ + ext;
    if from_a < from_b {
        law_names_sort_by_offset(from_a, from_b);
        lemma_lt_by_prefix(padded(from_a), padded(from_b), u, v);
    } else {
        law_names_sort_by_offset(to_a, to_b);
        lemma_padded(to_a);
        lemma_padded(to_b);
        let x = "."@ + ext;
        lemma_lt_by_prefix(padded(to_a), padded(to_b), x, x);
        lemma_lt_behind("-"@, padded(to_a) + x, padded(to_b) + x);
        assert(u =~= "-"@ + (padded(to_a) + x));
        assert(v =~= "-"@ + (padded(to_b) + x));
        lemma_lt_behind(padded(from_a), u, v);
    }
    assert(batch_name(from_a, to_a, ext) =~= padded(from_a) + u);
    assert(batch_name(from_b, to_b, ext) =~= padded(from_b) + v);
}

/// An offset, padded.
fn pad(n: u64) -> (s: String)
    ensures
        s@ == padded(n),
{
    let d = decimal(n);
    let digits = chars_of(d.as_str());
    let mut s = String::new();
    let mut have: usize = digits.len();
    let ghost start = digits.len();
    while have < OFFSET_WIDTH
        invariant
            start <= have,
            start < 20 ==> have <= 20,
            start >= 20 ==> have == start,
            s@ == zeros((have - start) as nat),
        decreases 20 - have,
    {
        s.push('0');
        have += 1;
        assert(s@ =~= zeros((have - start) as nat));
    }
    proof {
        if start >= 20 {
            assert(zeros(0) + d@ =~= d@);
        }
    }
    s.concat(d.as_str())
}

/// The name of a batch: `<from>-<to>.<ext>`.
pub fn batch_filename(from: u64, to: u64, ext: &str) -> (s: String)
    ensures
        s@ == batch_name(from, to, ext@),
{
    pad(from).concat("-").concat(pad(to).as_str()).concat(".").concat(ext)
}

/// Whether `v` ends with `suffix`.
fn ends_with(v: &Vec<char>, suffix: &Vec<char>) -> (r: bool)
    ensures
        r == (v.len() >= suffix.len() && v@.skip(v.len() - suffix.len()) == suffix@),
{
    if v.len() < suffix.len() {
        return false;
    }
    let at: usize = v.len() - suffix.len();
    let mut i: usize = 0;
    while i < suffix.len()
        invariant
            i <= suffix.len(),
            at == v.len() - suffix.len(),
            forall|j: int| 0 <= j < i ==> v@[at + j] == suffix@[j],
        decreases suffix.len() - i,
    {
        if v[at + i] != suffix[i] {
            assert(v@.skip(at as int)[i as int] != suffix@[i as int]);
            return false;
        }
        i += 1;
    }
    assert(v@.skip(at as int) =~= suffix@);
    true
}

/// The offset that a part of a name stands for.
fn parse_part(v: &Vec<char>) -> (r: Option<u64>)
    ensures
        r == part_offset(v@),
{
    if v.len() != OFFSET_WIDTH {
        return None;
    }
    if v[0] == '+' {
        assert(digit_value(v@[0]) is None);
        return None;
    }
    parse_digits(v, u64::MAX)
}

/// The offsets that a name gives, if it is the name of a batch with the
/// given extension.
pub fn parse_filename(name: &str, ext: &str) -> (r: Option<(u64, u64)>)
    ensures
        r == named_range(name@, ext@),
{
    let v = chars_of(name);
    let mut suffix: Vec<char> = Vec::new();
    suffix.push('.');
    let mut e = chars_of(ext);
    suffix.append(&mut e);
    assert(suffix@ =~= seq!['.'] + ext@);
    if !ends_with(&v, &suffix) {
        return None;
    }
    let end: usize = v.len() - suffix.len();
    let ghost s = v@.take(end as int);
    let mut h: usize = 0;
    assert(s.skip(0) =~= s);
    while h < end && v[h] != '-'
        invariant
            h <= end <= v.len(),
            s == v@.take(end as int),
            find_char(s, '-') == h + find_char(s.skip(h as int), '-'),
        decreases end - h,
    {
        assert(s.skip(h as int)[0] == v@[h as int]);
        assert(s.skip(h as int).skip(1) =~= s.skip(h + 1));
        h += 1;
    }
    if h == end {
        return None;
    }
    assert(s.skip(h as int)[0] == '-');
    let from = parse_part(&sub_chars(&v, 0, h));
    let to = parse_part(&sub_chars(&v, h + 1, end));
    assert(v@.subrange(0, h as int) =~= s.take(h as int));
    assert(v@.subrange(h + 1, end as int) =~= s.skip(h + 1));
    match (from, to) {
        (Some(f), Some(t)) => Some((f, t)),
        _ => None,
    }
}

/// A path with another one put behind it. A path that starts at the root
/// replaces what stands before it.
pub open spec fn joined(base: Seq<char>, part: Seq<char>) -> Seq<char> {
    if part.len() > 0 && part[0] == '/' {
        part
    } else if base.len() == 0 || base.last() == '/' {
        base + part
    } else {
        base + "/"@ + part
    }
}

fn join_path(base: &str, part: &str) -> (r: String)
    ensures
        r@ == joined(base@, part@),
{
    let b = chars_of(base);
    let p = chars_of(part);
    if p.len() > 0 && p[0] == '/' {
        part.to_owned()
    } else if b.len() == 0 || b[b.len() - 1] == '/' {
        base.to_owned().concat(part)
    } else {
        base.to_owned().concat("/").concat(part)
    }
}

/// The directory of a partition: `<root>/<name>/<partition>`.
pub fn partition_dir(root: &str, destination_name: &str, partition: u32) -> (r: String)
    ensures
        r@ == joined(joined(root@, destination_name@), dec(partition as nat)),
{
    let d = join_path(root, destination_name);
    join_path(d.as_str(), decimal(partition as u64).as_str())
}

} // verus!
