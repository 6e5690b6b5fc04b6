//! Shell-style interpolation of configuration text.
//!
//! - `${VAR}` stands for the value of a variable that must be set;
//! - `${VAR:-default}` stands for its value, or for `default` (which may
//!   be empty) where it is not set;
//! - `$$` stands for one dollar sign.
//!
//! Names match `[A-Za-z_][A-Za-z0-9_]*`. Anything else passes through as
//! it is: a dollar sign before another character or at the end, and a pair
//! of braces that does not start with a name. A value that was put in is
//! not scanned again.
use vstd::prelude::*;
use vstd::string::*;

use crate::text::{chars_of, debug_quoted, debug_text, same_text, string_of};

verus! {

/// Why a text cannot be expanded.
#[derive(Debug, PartialEq, Eq)]
pub enum EnvSubstError {
    /// A variable without a default is not set.
    UndefinedVariable(String),
    /// A `${` without its closing brace.
    Unterminated,
}

/// The contents of an expansion error.
pub enum ExpandFault {
    UndefinedVariable(Seq<char>),
    Unterminated,
}

impl View for EnvSubstError {
    type V = ExpandFault;

    open spec fn view(&self) -> ExpandFault {
        match self {
            EnvSubstError::UndefinedVariable(n) => ExpandFault::UndefinedVariable(n@),
            EnvSubstError::Unterminated => ExpandFault::Unterminated,
        }
    }
}

impl EnvSubstError {
    pub open spec fn text(&self) -> Seq<char> {
        match self {
            EnvSubstError::UndefinedVariable(n) => "undefined variable "@ + debug_quoted(n@),
            EnvSubstError::Unterminated => "unterminated `${...}` reference"@,
        }
    }

    /// The error in words.
    pub fn message(&self) -> (s: String)
        ensures
            s@ == self.text(),
    {
        match self {
            EnvSubstError::UndefinedVariable(n) => "undefined variable ".to_owned().concat(
                debug_text(n.as_str()).as_str(),
            ),
            EnvSubstError::Unterminated => "unterminated `${...}` reference".to_owned(),
        }
    }
}

/// Where the values of variables come from.
pub trait Env {
    /// The value of the variable, if it is set.
    spec fn value_of(&self, name: Seq<char>) -> Option<Seq<char>>;

    fn lookup(&self, name: &str) -> (r: Option<String>)
        ensures
            r is Some <==> self.value_of(name@) is Some,
            r matches Some(v) ==> self.value_of(name@) == Some(v@),
    ;
}

/// The variables of the process as they stood at startup.
#[derive(Debug)]
pub struct OsEnv {
    pub vars: Vec<(String, String)>,
}

/// The value in the first pair with the given name.
pub open spec fn first_value(vars: Seq<(String, String)>, name: Seq<char>) -> Option<Seq<char>>
    decreases vars.len(),
{
    if vars.len() == 0 {
        None
    } else if vars[0].0@ == name {
        Some(vars[0].1@)
    } else {
        first_value(vars.skip(1), name)
    }
}

impl Env for OsEnv {
    open spec fn value_of(&self, name: Seq<char>) -> Option<Seq<char>> {
        first_value(self.vars@, name)
    }

    fn lookup(&self, name: &str) -> (r: Option<String>) {
        let mut i: usize = 0;
        assert(self.vars@.skip(0) =~= self.vars@);
        while i < self.vars.len()
            invariant
                i <= self.vars.len(),
                first_value(self.vars@, name@) == first_value(self.vars@.skip(i as int), name@),
            decreases self.vars.len() - i,
        {
            if same_text(self.vars[i].0.as_str(), name) {
                return Some(self.vars[i].1.clone());
            }
            assert(self.vars@.skip(i as int).skip(1) =~= self.vars@.skip(i + 1));
            i += 1;
        }
        None
    }
}

/// The place of the first `c` in `s`, or the length of `s`.
pub open spec fn find_char(s: Seq<char>, c: char) -> nat
    decreases s.len(),
{
    if s.len() == 0 || s[0] == c {
        0
    } else {
        1 + find_char(s.skip(1), c)
    }
}

/// The place of the first `:-` in `s`, or the length of `s`.
pub open spec fn find_separator(s: Seq<char>) -> nat
    decreases s.len(),
{
    if s.len() == 0 || (s.len() >= 2 && s[0] == ':' && s[1] == '-') {
        0
    } else {
        1 + find_separator(s.skip(1))
    }
}

/// The name in the body of a reference: what stands before the first `:-`.
pub open spec fn body_name(body: Seq<char>) -> Seq<char> {
    body.take(find_separator(body) as int)
}

/// The default in the body of a reference: what stands after the first
/// `:-`, if there is one.
pub open spec fn body_default(body: Seq<char>) -> Option<Seq<char>> {
    if find_separator(body) < body.len() {
        Some(body.skip(find_separator(body) as int + 2))
    } else {
        None
    }
}

pub open spec fn is_name_start(c: char) -> bool {
    ('a' <= c && c <= 'z') || ('A' <= c && c <= 'Z') || c == '_'
}

pub open spec fn is_name_char(c: char) -> bool {
    is_name_start(c) || ('0' <= c && c <= '9')
}

/// Whether `s` is the name of a variable.
pub open spec fn is_name(s: Seq<char>) -> bool {
    s.len() > 0 && is_name_start(s[0]) && forall|i: int|
        0 <= i < s.len() ==> is_name_char(#[trigger] s[i])
}

/// What a reference with the given body expands to.
pub open spec fn reference<E: Env>(body: Seq<char>, env: &E) -> Result<Seq<char>, ExpandFault> {
    if !is_name(body_name(body)) {
        Ok(seq!['$', '{'] + body + seq!['}'])
    } else {
        match env.value_of(body_name(body)) {
            Some(v) => Ok(v),
            None => match body_default(body) {
                Some(d) => Ok(d),
                None => Err(ExpandFault::UndefinedVariable(body_name(body))),
            },
        }
    }
}

/// `head` in front of a successful expansion.
pub open spec fn prepend(head: Seq<char>, r: Result<Seq<char>, ExpandFault>) -> Result<
    Seq<char>,
    ExpandFault,
> {
    match r {
        Ok(tail) => Ok(head + tail),
        Err(e) => Err(e),
    }
}

/// What `s` expands to. The leftmost error counts.
pub open spec fn expansion<E: Env>(s: Seq<char>, env: &E) -> Result<Seq<char>, ExpandFault>
    decreases s.len(),
{
    if s.len() == 0 {
        Ok(seq![])
    } else if s[0] != '$' {
        prepend(seq![s[0]], expansion(s.skip(1), env))
    } else if s.len() >= 2 && s[1] == '$' {
        prepend(seq!['$'], expansion(s.skip(2), env))
    } else if s.len() >= 2 && s[1] == '{' {
        let inner = s.skip(2);
        let close = find_char(inner, '}');
        if close >= inner.len() {
            Err(ExpandFault::Unterminated)
        } else {
            match reference(inner.take(close as int), env) {
                Ok(v) => prepend(v, expansion(inner.skip(close as int + 1), env)),
                Err(e) => Err(e),
            }
        }
    } else {
        prepend(seq!['$'], expansion(s.skip(1), env))
    }
}

proof fn lemma_find_char(s: Seq<char>, c: char)
    ensures
        find_char(s, c) <= s.len(),
        find_char(s, c) < s.len() ==> s[find_char(s, c) as int] == c,
        forall|i: int| 0 <= i < find_char(s, c) ==> s[i] != c,
    decreases s.len(),
{
    if s.len() > 0 && s[0] != c {
        lemma_find_char(s.skip(1), c);
        assert forall|i: int| 0 <= i < find_char(s, c) implies s[i] != c by {
            if i > 0 {
                assert(s.skip(1)[i - 1] == s[i]);
            }
        }
    }
}

proof fn lemma_find_separator(s: Seq<char>)
    ensures
        find_separator(s) <= s.len(),
        find_separator(s) < s.len() ==> find_separator(s) + 2 <= s.len(),
    decreases s.len(),
{
    if s.len() > 0 && !(s.len() >= 2 && s[0] == ':' && s[1] == '-') {
        lemma_find_separator(s.skip(1));
    }
}

/// The place of the first closing brace at or after `from`, if any.
fn consume_until_close(v: &Vec<char>, from: usize) -> (r: Option<usize>)
    requires
        from <= v.len(),
    ensures
        r is Some <==> find_char(v@.skip(from as int), '}') < v.len() - from,
        r matches Some(end) ==> from <= end < v.len() && end - from == find_char(
            v@.skip(from as int),
            '}',
        ),
{
    let mut i: usize = from;
    let ghost rest = v@.skip(from as int);
    assert(rest.skip(0) =~= rest);
    while i < v.len()
        invariant
            from <= i <= v.len(),
            rest == v@.skip(from as int),
            find_char(rest, '}') == (i - from) + find_char(rest.skip(i - from), '}'),
        decreases v.len() - i,
    {
        assert(rest[i - from] == v@[i as int]);
        if v[i] == '}' {
            return Some(i);
        }
        assert(rest.skip(i - from).skip(1) =~= rest.skip(i - from + 1));
        i += 1;
    }
    None
}

/// The name and the default of a reference.
fn split_name_default(body: &Vec<char>) -> (r: (Vec<char>, Option<Vec<char>>))
    ensures
        r.0@ == body_name(body@),
        r.1 is Some <==> body_default(body@) is Some,
        r.1 matches Some(d) ==> body_default(body@) == Some(d@),
{
    let mut i: usize = 0;
    assert(body@.skip(0) =~= body@);
    proof {
        lemma_find_separator(body@);
    }
    while i < body.len() && !(body.len() - i >= 2 && body[i] == ':' && body[i + 1] == '-')
        invariant
            i <= body.len(),
            find_separator(body@) == i + find_separator(body@.skip(i as int)),
        decreases body.len() - i,
    {
        assert(body@.skip(i as int).skip(1) =~= body@.skip(i + 1));
        i += 1;
    }
    assert(find_separator(body@) == i);
    let name = sub_chars(body, 0, i);
    assert(name@ =~= body@.take(i as int));
    if i < body.len() {
        let default = sub_chars(body, i + 2, body.len());
        assert(default@ =~= body@.skip(i + 2));
        (name, Some(default))
    } else {
        (name, None)
    }
}

/// The characters from `from` up to `to`.
pub(crate) fn sub_chars(v: &Vec<char>, from: usize, to: usize) -> (r: Vec<char>)
    requires
        from <= to <= v.len(),
    ensures
        r@ == v@.subrange(from as int, to as int),
{
    let mut r: Vec<char> = Vec::new();
    let mut i: usize = from;
    while i < to
        invariant
            from <= i <= to <= v.len(),
            r@ == v@.subrange(from as int, i as int),
        decreases to - i,
    {
        r.push(v[i]);
        i += 1;
        assert(r@ =~= v@.subrange(from as int, i as int));
    }
    r
}

fn is_valid_name(name: &Vec<char>) -> (r: bool)
    ensures
        r == is_name(name@),
{
    if name.len() == 0 {
        return false;
    }
    let c = name[0];
    if !(('a' <= c && c <= 'z') || ('A' <= c && c <= 'Z') || c == '_') {
        return false;
    }
    let mut i: usize = 0;
    while i < name.len()
        invariant
            i <= name.len(),
            forall|j: int| 0 <= j < i ==> is_name_char(#[trigger] name@[j]),
        decreases name.len() - i,
    {
        let c = name[i];
        if !(('a' <= c && c <= 'z') || ('A' <= c && c <= 'Z') || c == '_' || ('0' <= c && c
            <= '9')) {
            assert(!is_name_char(name@[i as int]));
            return false;
        }
        i += 1;
    }
    true
}

/// Expand every reference in `input`.
pub fn expand<E: Env>(input: &str, env: &E) -> (r: Result<String, EnvSubstError>)
    ensures
        match (r, expansion(input@, env)) {
            (Ok(s), Ok(t)) => s@ == t,
            (Err(e), Err(f)) => e@ == f,
            _ => false,
        },
{
    let v = chars_of(input);
    let mut out = String::new();
    let mut i: usize = 0;
    let ghost whole = expansion(input@, env);
    assert(v@.skip(0) =~= v@);
    assert(prepend(out@, whole) == whole) by {
        if let Ok(t) = whole {
            assert(Seq::<char>::empty() + t =~= t);
        }
    }
    while i < v.len()
        invariant
            i <= v.len(),
            whole == expansion(input@, env),
            whole == prepend(out@, expansion(v@.skip(i as int), env)),
        decreases v.len() - i,
    {
        let ghost rest = v@.skip(i as int);
        let ghost done = out@;
        let c = v[i];
        if c != '$' {
            out.push(c);
            i += 1;
            proof {
                assert(rest.skip(1) =~= v@.skip(i as int));
                lemma_prepend_twice(done, seq![c], expansion(rest.skip(1), env));
                assert(done.push(c) =~= done + seq![c]);
            }
            continue;
        }
        if v.len() - i >= 2 && v[i + 1] == '$' {
            out.push('$');
            i += 2;
            proof {
                assert(rest.skip(2) =~= v@.skip(i as int));
                lemma_prepend_twice(done, seq!['$'], expansion(rest.skip(2), env));
                assert(done.push('$') =~= done + seq!['$']);
            }
        } else if v.len() - i >= 2 && v[i + 1] == '{' {
            let ghost inner = rest.skip(2);
            assert(inner =~= v@.skip(i + 2));
            let close: usize = match consume_until_close(&v, i + 2) {
                Some(close) => close,
                None => {
                    return Err(EnvSubstError::Unterminated);
                },
            };
            let body = sub_chars(&v, i + 2, close);
            assert(body@ =~= inner.take(close - i - 2));
            let (name, default) = split_name_default(&body);
            let piece: String = if !is_valid_name(&name) {
                let mut p = String::new();
                p.push('$');
                p.push('{');
                p.append(string_of(&body).as_str());
                p.push('}');
                assert(p@ =~= seq!['$', '{'] + body@ + seq!['}']);
                p
            } else {
                let name_text = string_of(&name);
                match env.lookup(name_text.as_str()) {
                    Some(v) => v,
                    None => match &default {
                        Some(d) => string_of(d),
                        None => {
                            return Err(EnvSubstError::UndefinedVariable(name_text));
                        },
                    },
                }
            };
            out.append(piece.as_str());
            proof {
                assert(reference(body@, env) == Ok::<Seq<char>, ExpandFault>(piece@));
                assert(inner.skip(close - i - 2 + 1) =~= v@.skip(close + 1));
                lemma_prepend_twice(done, piece@, expansion(v@.skip(close + 1), env));
            }
            i = close + 1;
        } else {
            out.push('$');
            i += 1;
            proof {
                assert(rest.skip(1) =~= v@.skip(i as int));
                lemma_prepend_twice(done, seq!['$'], expansion(rest.skip(1), env));
                assert(done.push('$') =~= done + seq!['$']);
            }
        }
    }
    assert(v@.skip(i as int) =~= Seq::<char>::empty());
    assert(out@ + Seq::<char>::empty() =~= out@);
    Ok(out)
}

proof fn lemma_prepend_twice(a: Seq<char>, b: Seq<char>, r: Result<Seq<char>, ExpandFault>)
    ensures
        prepend(a, prepend(b, r)) == prepend(a + b, r),
{
    if let Ok(t) = r {
        assert(a + (b + t) =~= a + b + t);
    }
}

/// Text without a dollar sign expands to itself.
pub proof fn law_plain_text_is_unchanged<E: Env>(s: Seq<char>, env: &E)
    requires
        !s.contains('$'),
    ensures
        expansion(s, env) == Ok::<Seq<char>, ExpandFault>(s),
    decreases s.len(),
{
    if s.len() > 0 {
        assert(s.contains(s[0]));
        assert forall|c: char| s.skip(1).contains(c) implies s.contains(c) by {
            let i = s.skip(1).index_of(c);
            assert(s[i + 1] == c);
        }
        law_plain_text_is_unchanged(s.skip(1), env);
        assert(seq![s[0]] + s.skip(1) =~= s);
    } else {
        assert(s =~= seq![]);
    }
}

/// `s` with every dollar sign doubled.
pub open spec fn escaped(s: Seq<char>) -> Seq<char>
    decreases s.len(),
{
    if s.len() == 0 {
        seq![]
    } else if s[0] == '$' {
        seq!['$', '$'] + escaped(s.skip(1))
    } else {
        seq![s[0]] + escaped(s.skip(1))
    }
}

/// Any text can be written so that it expands to itself: double its
/// dollar signs.
pub proof fn law_escaping_is_undone<E: Env>(s: Seq<char>, env: &E)
    ensures
        expansion(escaped(s), env) == Ok::<Seq<char>, ExpandFault>(s),
    decreases s.len(),
{
    let e = escaped(s);
    if s.len() > 0 {
        law_escaping_is_undone(s.skip(1), env);
        assert(seq![s[0]] + s.skip(1) =~= s);
        if s[0] == '$' {
            assert(e.skip(2) =~= escaped(s.skip(1)));
        } else {
            assert(e.skip(1) =~= escaped(s.skip(1)));
        }
    } else {
        assert(s =~= seq![]);
    }
}

/// A reference to a set variable expands to the variable's value as it
/// is, whatever the value holds: it is not scanned again.
pub proof fn law_values_are_not_rescanned<E: Env>(name: Seq<char>, env: &E)
    requires
        is_name(name),
        env.value_of(name) is Some,
    ensures
        expansion(seq!['$', '{'] + name + seq!['}'], env) == Ok::<Seq<char>, ExpandFault>(
            env.value_of(name)->0,
        ),
{
    let s = seq!['$', '{'] + name + seq!['}'];
    let inner = s.skip(2);
    assert(inner =~= name + seq!['}']);
    lemma_find_char(inner, '}');
    let close = find_char(inner, '}');
    assert(close == name.len()) by {
        if close < name.len() {
            assert(inner[close as int] == name[close as int]);
            assert(is_name_char(name[close as int]));
        }
        if close > name.len() {
            assert(inner[name.len() as int] == '}');
        }
    }
    assert(inner.take(close as int) =~= name);
    lemma_no_separator(name);
    assert(body_name(name) =~= name);
    let rest = inner.skip(close as int + 1);
    assert(rest =~= seq![]);
    assert(expansion(rest, env) == Ok::<Seq<char>, ExpandFault>(seq![]));
    assert(s[0] == '$' && s[1] == '{');
    assert(env.value_of(name)->0 + Seq::<char>::empty() =~= env.value_of(name)->0);
}

proof fn lemma_no_separator(s: Seq<char>)
    requires
        forall|i: int| 0 <= i < s.len() ==> is_name_char(#[trigger] s[i]),
    ensures
        find_separator(s) == s.len(),
    decreases s.len(),
{
    if s.len() > 0 {
        assert(is_name_char(s[0]));
        assert forall|i: int| 0 <= i < s.skip(1).len() implies is_name_char(
            #[trigger] s.skip(1)[i],
        ) by {
            assert(is_name_char(s[i + 1]));
        }
        lemma_no_separator(s.skip(1));
    }
}

// ---- what every text expands to ----------------------------------------------

proof fn lemma_reference_end(body: Seq<char>, tail: Seq<char>)
    requires
        !body.contains('}'),
    ensures
        ({
            let s = seq!['$', '{'] + body + seq!['}'] + tail;
            let inner = s.skip(2);
            &&& s.len() >= 2 && s[0] == '$' && s[1] == '{'
            &&& find_char(inner, '}') == body.len()
            &&& find_char(inner, '}') < inner.len()
            &&& inner.take(body.len() as int) == body
            &&& inner.skip(body.len() as int + 1) == tail
        }),
{
    let s = seq!['$', '{'] + body + seq!['}'] + tail;
    let inner = s.skip(2);
    assert(inner =~= body + seq!['}'] + tail);
    lemma_find_char(inner, '}');
    let close = find_char(inner, '}');
    if close < body.len() {
        assert(body[close as int] == '}');
    }
    if close > body.len() {
        assert(inner[body.len() as int] == '}');
    }
    assert(inner.take(body.len() as int) =~= body);
    assert(inner.skip(body.len() as int + 1) =~= tail);
}

/// Where the separator `:-` first occurs.
proof fn lemma_separator_at(name: Seq<char>, rest: Seq<char>)
    requires
        forall|i: int| 0 <= i < name.len() - 1 ==> !(#[trigger] name[i] == ':' && name[i + 1] == '-'),
    ensures
        find_separator(name + seq![':', '-'] + rest) == name.len(),
    decreases name.len(),
{
    let s = name + seq![':', '-'] + rest;
    if name.len() == 0 {
        assert(s[0] == ':' && s[1] == '-');
    } else {
        let n = name.skip(1);
        assert(s[0] == name[0]);
        assert(s[1] == if name.len() > 1 {
            name[1]
        } else {
            ':'
        });
        assert forall|i: int| 0 <= i < n.len() - 1 implies !(#[trigger] n[i] == ':' && n[i + 1]
            == '-') by {
            assert(!(name[i + 1] == ':' && name[i + 2] == '-'));
        }
        lemma_separator_at(name.skip(1), rest);
        assert(s.skip(1) =~= name.skip(1) + seq![':', '-'] + rest);
    }
}

proof fn lemma_named(name: Seq<char>)
    requires
        name.len() > 0,
        !('0' <= name[0] <= '9'),
        forall|i: int|
            0 <= i < name.len() ==> {
                ||| 'a' <= #[trigger] name[i] <= 'z'
                ||| 'A' <= name[i] <= 'Z'
                ||| '0' <= name[i] <= '9'
                ||| name[i] == '_'
            },
    ensures
        is_name(name),
        !name.contains('}'),
        !name.contains(':'),
{
    assert forall|i: int| 0 <= i < name.len() implies is_name_char(#[trigger] name[i]) by {}
    if name.contains('}') {
        let i = name.index_of('}');
        assert(name[i] == '}');
    }
    if name.contains(':') {
        let i = name.index_of(':');
        assert(name[i] == ':');
    }
}

/// A name is made of the letters from `a` to `z` and from `A` to `Z`,
/// digits and underscores, and starts with no digit. `${name}` expands to
/// the value of the variable where it is set, also to an empty one, and is
/// an error that names the variable where it is not. What comes behind it
/// is expanded on its own.
pub proof fn law_references_to_variables<E: Env>(name: Seq<char>, tail: Seq<char>, env: &E)
    requires
        name.len() > 0,
        !('0' <= name[0] <= '9'),
        forall|i: int|
            0 <= i < name.len() ==> {
                ||| 'a' <= #[trigger] name[i] <= 'z'
                ||| 'A' <= name[i] <= 'Z'
                ||| '0' <= name[i] <= '9'
                ||| name[i] == '_'
            },
    ensures
        expansion(seq!['$', '{'] + name + seq!['}'] + tail, env) == match env.value_of(name) {
            Some(v) => match expansion(tail, env) {
                Ok(t) => Ok::<Seq<char>, ExpandFault>(v + t),
                Err(e) => Err(e),
            },
            None => Err(ExpandFault::UndefinedVariable(name)),
        },
{
    lemma_named(name);
    lemma_reference_end(name, tail);
    lemma_no_separator(name);
    assert(body_name(name) =~= name);
}

/// `${name:-default}` expands to the value of the variable where it is
/// set, also to an empty one, and else to the default as it stands.
pub proof fn law_references_with_defaults<E: Env>(
    name: Seq<char>,
    default: Seq<char>,
    tail: Seq<char>,
    env: &E,
)
    requires
        name.len() > 0,
        !('0' <= name[0] <= '9'),
        forall|i: int|
            0 <= i < name.len() ==> {
                ||| 'a' <= #[trigger] name[i] <= 'z'
                ||| 'A' <= name[i] <= 'Z'
                ||| '0' <= name[i] <= '9'
                ||| name[i] == '_'
            },
        !default.contains('}'),
    ensures
        expansion(seq!['$', '{'] + (name + seq![':', '-'] + default) + seq!['}'] + tail, env) == (
        match expansion(tail, env) {
            Ok(t) => Ok::<Seq<char>, ExpandFault>(
                match env.value_of(name) {
                    Some(v) => v,
                    None => default,
                } + t,
            ),
            Err(e) => Err(e),
        }),
{
    let body = name + seq![':', '-'] + default;
    lemma_named(name);
    if body.contains('}') {
        let i = body.index_of('}');
        if i < name.len() {
            assert(name[i] == '}');
        } else if i >= name.len() + 2 {
            assert(default[i - name.len() - 2] == '}');
        }
    }
    lemma_reference_end(body, tail);
    lemma_separator_at(name, default);
    assert(body_name(body) =~= name);
    assert(body_default(body)->0 =~= default);
}

/// A reference that names no variable stays as it is: it is empty, or its
/// name, which ends at the first `:-`, starts with a digit or holds any
/// other character.
pub proof fn law_other_references_are_kept<E: Env>(
    name: Seq<char>,
    rest: Seq<char>,
    tail: Seq<char>,
    env: &E,
)
    requires
        !name.contains('}'),
        forall|i: int| 0 <= i < name.len() - 1 ==> !(#[trigger] name[i] == ':' && name[i + 1] == '-'),
        !rest.contains('}'),
        rest.len() == 0 || (rest.len() >= 2 && rest[0] == ':' && rest[1] == '-'),
        name.len() == 0 || '0' <= name[0] <= '9' || exists|i: int|
            0 <= i < name.len() && !('a' <= #[trigger] name[i] <= 'z') && !('A' <= name[i] <= 'Z')
                && !('0' <= name[i] <= '9') && name[i] != '_',
    ensures
        expansion(seq!['$', '{'] + (name + rest) + seq!['}'] + tail, env) == match expansion(
            tail,
            env,
        ) {
            Ok(t) => Ok::<Seq<char>, ExpandFault>(
                seq!['$', '{'] + (name + rest) + seq!['}'] + t,
            ),
            Err(e) => Err(e),
        },
{
    let body = name + rest;
    if body.contains('}') {
        let i = body.index_of('}');
        if i < name.len() {
            assert(name[i] == '}');
        } else {
            assert(rest[i - name.len()] == '}');
        }
    }
    lemma_reference_end(body, tail);
    if rest.len() == 0 {
        lemma_no_colon(name);
        assert(body =~= name);
    } else {
        lemma_separator_at(name, rest.skip(2));
        assert(body =~= name + seq![':', '-'] + rest.skip(2));
    }
    assert(body_name(body) =~= name);
    if name.len() > 0 && !('0' <= name[0] <= '9') {
        let i = choose|i: int|
            0 <= i < name.len() && !('a' <= #[trigger] name[i] <= 'z') && !('A' <= name[i] <= 'Z')
                && !('0' <= name[i] <= '9') && name[i] != '_';
        assert(!is_name_char(name[i]));
    }
    assert(!is_name(name));
}

proof fn lemma_no_colon(s: Seq<char>)
    requires
        forall|i: int| 0 <= i < s.len() - 1 ==> !(#[trigger] s[i] == ':' && s[i + 1] == '-'),
    ensures
        find_separator(s) == s.len(),
    decreases s.len(),
{
    if s.len() > 0 {
        let n = s.skip(1);
        assert forall|i: int| 0 <= i < n.len() - 1 implies !(#[trigger] n[i] == ':' && n[i + 1]
            == '-') by {
            assert(!(s[i + 1] == ':' && s[i + 2] == '-'));
        }
        lemma_no_colon(s.skip(1));
    }
}

/// Outside references every character stands for itself, two dollar signs
/// for one, and a dollar sign before anything else for itself. A reference
/// that is not closed is an error.
pub proof fn law_text_outside_references<E: Env>(c: char, tail: Seq<char>, env: &E)
    ensures
        expansion(seq![], env) == Ok::<Seq<char>, ExpandFault>(seq![]),
        c != '$' || (tail.len() > 0 && tail[0] != '$' && tail[0] != '{') ==> expansion(
            seq![c] + tail,
            env,
        ) == match expansion(tail, env) {
            Ok(t) => Ok::<Seq<char>, ExpandFault>(seq![c] + t),
            Err(e) => Err(e),
        },
        expansion(seq!['$'], env) == Ok::<Seq<char>, ExpandFault>(seq!['$']),
        expansion(seq!['$', '$'] + tail, env) == match expansion(tail, env) {
            Ok(t) => Ok::<Seq<char>, ExpandFault>(seq!['$'] + t),
            Err(e) => Err(e),
        },
        !tail.contains('}') ==> expansion(seq!['$', '{'] + tail, env) == Err::<
            Seq<char>,
            ExpandFault,
        >(ExpandFault::Unterminated),
{
    let s = seq![c] + tail;
    assert(s.skip(1) =~= tail);
    let one = seq!['$'];
    assert(one.skip(1) =~= Seq::<char>::empty());
    assert(expansion(one.skip(1), env) == Ok::<Seq<char>, ExpandFault>(seq![]));
    assert(seq!['$'] + Seq::<char>::empty() =~= seq!['$']);
    let two = seq!['$', '$'] + tail;
    assert(two[0] == '$' && two[1] == '$');
    assert(two.skip(2) =~= tail);
    let open = seq!['$', '{'] + tail;
    assert(open[0] == '$' && open[1] == '{');
    assert(open.skip(2) =~= tail);
    lemma_find_char(tail, '}');
    if c == '$' && tail.len() > 0 {
        assert(s[1] == tail[0]);
    }
}

/// The value of a variable is that of the first pair with its name.
pub proof fn law_first_setting_counts(vars: Seq<(String, String)>, name: Seq<char>, i: int)
    requires
        0 <= i <= vars.len(),
        forall|j: int| 0 <= j < i ==> (#[trigger] vars[j]).0@ != name,
        i < vars.len() ==> vars[i].0@ == name,
    ensures
        first_value(vars, name) == if i < vars.len() {
            Some(vars[i].1@)
        } else {
            None
        },
    decreases vars.len(),
{
    if vars.len() > 0 && i > 0 {
        assert(vars[0].0@ != name);
        assert forall|j: int| 0 <= j < i - 1 implies (#[trigger] vars.skip(1)[j]).0@ != name by {
            assert(vars[j + 1].0@ != name);
        }
        law_first_setting_counts(vars.skip(1), name, i - 1);
    }
}

} // verus!
