//! The grammar: a recursive-descent parser from text to a document tree,
//! and the parser session that accumulates prioritised chunks.
use vstd::prelude::*;
use crate::error::{error_message, Error};
use crate::lexer::{
    heredoc_opens, heredoc_start, is_ws, quoted_walk, scan_heredoc, scan_quoted, scan_word,
    skip_trivia, trim_end, trim_trailing, trivia_walk, word_end, LexError,
};
use crate::object::{
    entries_view, entries_wf, insert_entry, insert_spec, lemma_insert_spec, merged, Entry, Object,
    Value,
};
use crate::scalar::{classify, scalar_of, Scalar};
use crate::text::{append_chars, chars_of, decimal_of, lower_char, push_decimal, string_of, to_lower};
use crate::vars::{expand, expand_vars, has_unknown_from, vars_view, Variable};
use crate::emitter::{
    config_elements, config_entries, config_indent_of, config_key, config_statements, config_text,
    dollars_doubled, escaped, is_bare_key, json_items, json_members, json_text, leaf_text, next_level, quoted,
    spaces, Emitter,
};
use crate::round_trip::{
    items_safe, json_safe, lemma_escaped_read, lemma_items_prefix, lemma_items_safe_at,
    lemma_json_first, lemma_leaf_plain, lemma_leaf_round_trip, lemma_members_prefix,
    lemma_members_safe_at, lemma_no_dollar_expand, lemma_shape_entries_views,
    lemma_shape_items_same, members_safe, same_shape, shape_entries,
    shape_items, config_safe, config_members_safe, config_items_safe, word_at,
    lemma_config_items_safe_at, lemma_config_members_safe_at, lemma_trivia_ws, lemma_trivia_fixed,
    lemma_word_of_plain_any, lemma_centries_prefix, lemma_cstatements_prefix,
    lemma_celements_prefix, lemma_config_first, lemma_expand_doubled, is_plain,
};

verus! {

/// Parser options, combined with `|`.
pub type ParserFlags = i32;

/// No option.
pub const DEFAULT: ParserFlags = 0;

/// Keys are folded to lowercase as they are read.
pub const LOWERCASE: ParserFlags = 1;

/// Has no effect: the input is always copied, so a document never borrows it.
pub const ZEROCOPY: ParserFlags = 2;

/// Numbers with a duration unit are ordinary numbers of seconds, not times.
pub const NO_TIME: ParserFlags = 4;

/// A key defined twice in one object is a syntax error.
pub const NO_IMPLICIT_ARRAYS: ParserFlags = 8;

/// A reference to a variable that is not registered is a syntax error.
pub const STRICT_VARIABLES: ParserFlags = 16;

/// How deeply objects and arrays may nest.
pub const MAX_NESTING: usize = 128;

/// Whether `c` opens a value other than a bare word: a brace, a bracket or
/// a quote.
pub open spec fn is_opening(c: char) -> bool {
    c == '{' || c == '[' || c == '"' || c == '\''
}

/// The options a parse runs under.
#[derive(Debug, Copy, Clone)]
pub struct Settings {
    pub lowercase: bool,
    pub no_time: bool,
    pub implicit_arrays: bool,
    pub strict_variables: bool,
    pub priority: u32,
}

/// The options given by `flags`, for a chunk of priority `priority`.
pub open spec fn settings_of_spec(flags: ParserFlags, priority: u32) -> Settings {
    Settings {
        lowercase: flags & LOWERCASE != 0,
        no_time: flags & NO_TIME != 0,
        implicit_arrays: flags & NO_IMPLICIT_ARRAYS == 0,
        strict_variables: flags & STRICT_VARIABLES != 0,
        priority,
    }
}

/// The options given by `flags`, for a chunk of priority `priority`.
pub fn settings_of(flags: ParserFlags, priority: u32) -> (r: Settings)
    ensures
        r == settings_of_spec(flags, priority),
{
    Settings {
        lowercase: flags & LOWERCASE != 0,
        no_time: flags & NO_TIME != 0,
        implicit_arrays: flags & NO_IMPLICIT_ARRAYS == 0,
        strict_variables: flags & STRICT_VARIABLES != 0,
        priority,
    }
}

/// What went wrong in a parse.
#[derive(Debug, PartialEq, Eq, Copy, Clone, Structural)]
pub enum Problem {
    Lex(LexError),
    ExpectedKey,
    ExpectedSeparator,
    ExpectedValue,
    UnmatchedBrace,
    UnmatchedBracket,
    UnexpectedClose,
    DuplicateKey,
    UnknownVariable,
    TrailingInput,
    TooDeep,
    UnknownMacro,
}

/// A problem and the offset, in characters, where it was found.
#[derive(Debug, Copy, Clone)]
pub struct Failure {
    pub problem: Problem,
    pub offset: usize,
}

/// Whether `k` has no uppercase ASCII letter.
pub open spec fn is_lowercase(k: Seq<char>) -> bool {
    forall|i: int| 0 <= i < k.len() ==> lower_char(#[trigger] k[i]) == k[i]
}

/// Whether every key of `ev` is free of uppercase ASCII letters.
pub open spec fn keys_lowercase(ev: Seq<(Seq<char>, Seq<Object>)>) -> bool {
    forall|i: int| 0 <= i < ev.len() ==> is_lowercase(#[trigger] ev[i].0)
}

proof fn lemma_lower_idempotent(c: char)
    ensures
        lower_char(lower_char(c)) == lower_char(c),
{
}

/// The key `t`, folded to lowercase when `lowercase` is set.
pub open spec fn folded(t: Seq<char>, lowercase: bool) -> Seq<char> {
    if lowercase {
        t.map_values(|c: char| lower_char(c))
    } else {
        t
    }
}

/// The key `t`, folded to lowercase when `lowercase` is set.
pub fn fold_key(t: Vec<char>, lowercase: bool) -> (r: String)
    ensures
        r@ == folded(t@, lowercase),
        lowercase ==> is_lowercase(r@),
{
    if !lowercase {
        return string_of(&t);
    }
    let mut out: Vec<char> = Vec::new();
    let mut i: usize = 0;
    while i < t.len()
        invariant
            i <= t@.len(),
            out@ == t@.take(i as int).map_values(|c: char| lower_char(c)),
        decreases t@.len() - i,
    {
        out.push(to_lower(t[i]));
        i = i + 1;
        assert(out@ =~= t@.take(i as int).map_values(|c: char| lower_char(c)));
    }
    assert(t@.take(t@.len() as int) =~= t@);
    let r = string_of(&out);
    assert forall|i: int| 0 <= i < r@.len() implies lower_char(#[trigger] r@[i]) == r@[i] by {
        lemma_lower_idempotent(t@[i]);
    }
    r
}

/// Reads the key starting at `pos`: a quoted string or a bare word, folded
/// to lowercase when keys are folded. A bare word that starts with `.` is
/// a macro, which no handler accepts.
pub fn parse_key(s: &Vec<char>, pos: usize, st: Settings) -> (r: Result<(String, usize), Failure>)
    requires
        pos < s@.len(),
    ensures
        r matches Ok((k, e)) ==> pos < e <= s@.len() && (st.lowercase ==> is_lowercase(k@)),
        s@[pos as int] == '"' || s@[pos as int] == '\'' ==> match quoted_walk(
            s@,
            pos + 1,
            s@[pos as int],
        ) {
            Some((t, qe)) => r matches Ok((k, e)) && e == qe && k@ == folded(t, st.lowercase),
            None => r is Err,
        },
        !(s@[pos as int] == '"' || s@[pos as int] == '\'') ==> {
            let e = word_end(s@, pos as int, true);
            &&& r is Ok <==> e > pos && s@[pos as int] != '.'
            &&& r matches Ok((k, e2)) ==> e2 == e && k@ == folded(
                s@.subrange(pos as int, e),
                st.lowercase,
            )
        },
{
    let n = s.len();
    let c = s[pos];
    if c == '"' || c == '\'' {
        match scan_quoted(s, pos + 1, c) {
            Ok((t, e)) => Ok((fold_key(t, st.lowercase), e)),
            Err(le) => Err(Failure { problem: Problem::Lex(le), offset: pos }),
        }
    } else {
        let e = scan_word(s, pos, true);
        if e == pos {
            return Err(Failure { problem: Problem::ExpectedKey, offset: pos });
        }
        if c == '.' {
            return Err(Failure { problem: Problem::UnknownMacro, offset: pos });
        }
        let mut t: Vec<char> = Vec::new();
        let mut j = pos;
        while j < e
            invariant
                pos <= j <= e <= s@.len(),
                t@ == s@.subrange(pos as int, j as int),
            decreases e - j,
        {
            t.push(s[j]);
            j = j + 1;
            assert(t@ =~= s@.subrange(pos as int, j as int));
        }
        Ok((fold_key(t, st.lowercase), e))
    }
}

/// The text of a bare value starting at `pos`: the word, without trailing
/// whitespace.
pub open spec fn bare_value(s: Seq<char>, pos: int) -> Seq<char> {
    s.subrange(pos, trim_end(s, pos, word_end(s, pos, false)))
}

/// Whether `v` is what the scalar `sc` stands for; a text scalar stands for
/// the string `text`.
pub open spec fn holds_scalar(v: Value, sc: Scalar, text: Seq<char>) -> bool {
    match sc {
        Scalar::Int(n) => v == Value::Int(n),
        Scalar::Float(d) => v == Value::Float(d),
        Scalar::Time(d) => v == Value::Time(d),
        Scalar::Boolean(b) => v == Value::Boolean(b),
        Scalar::Null => v == Value::Null,
        Scalar::Text => v matches Value::String(x) && x@ == text,
    }
}

/// Whether expanding `t` is refused: a reference to an unknown variable
/// while such references are errors.
pub open spec fn refused(t: Seq<char>, vars: Seq<Variable>, st: Settings) -> bool {
    st.strict_variables && has_unknown_from(t, vars_view(vars), 0)
}

/// Expands the variable references in `t` into a string node.
fn text_node(t: &Vec<char>, vars: &Vec<Variable>, st: Settings, key: Option<String>, at: usize) -> (r:
    Result<Object, Failure>)
    ensures
        r is Err <==> refused(t@, vars@, st),
        r matches Ok(o) ==> o.priority == st.priority && o.key == key && (o.value matches Value::String(
            x,
        ) && x@ == expand(t@, vars_view(vars@))),
{
    let (x, unknown) = expand_vars(t, vars);
    if unknown && st.strict_variables {
        return Err(Failure { problem: Problem::UnknownVariable, offset: at });
    }
    Ok(Object { key, priority: st.priority, value: Value::String(string_of(&x)) })
}

/// Whether `f` is one of the two JSON formats.
pub open spec fn is_json(f: Emitter) -> bool {
    f == Emitter::JSON || f == Emitter::JSONCompact
}

/// Whether the JSON text, in format `expect.2` at level `expect.1`, of the
/// safe tree `expect.0` stands at `pos`, for a parse with keys kept as they
/// are at nesting `depth`.
pub open spec fn value_expected(
    s: Seq<char>,
    pos: int,
    st: Settings,
    depth: int,
    expect: Option<(Object, nat, Emitter)>,
) -> bool {
    &&& expect is Some
    &&& is_json(expect.unwrap().2)
    &&& !st.lowercase
    &&& 0 <= depth <= MAX_NESTING
    &&& json_safe(expect.unwrap().0, (MAX_NESTING - depth) as nat)
    &&& word_at(s, pos, json_text(expect.unwrap().0, expect.unwrap().2, expect.unwrap().1))
}

/// Whether, after whitespace from `pos`, the JSON members of the safe
/// entries `expect.0` at level `expect.1` in format `expect.2` stand at
/// `expect.3`, then `expect.4` spaces and `}`.
#[verifier::opaque]
pub open spec fn members_expected(
    s: Seq<char>,
    pos: int,
    st: Settings,
    depth: int,
    expect: Option<(Seq<Entry>, nat, Emitter, int, nat)>,
) -> bool {
    let es = expect.unwrap().0;
    let start = expect.unwrap().3;
    let m = json_members(es, expect.unwrap().2, expect.unwrap().1, es.len() as int);
    let c = expect.unwrap().4;
    &&& expect is Some
    &&& is_json(expect.unwrap().2)
    &&& (expect.unwrap().2 == Emitter::JSONCompact ==> c == 0)
    &&& !st.lowercase
    &&& 0 <= depth <= MAX_NESTING
    &&& entries_wf(entries_view(es))
    &&& members_safe(es, (MAX_NESTING - depth) as nat, es.len() as int)
    &&& 0 <= pos <= start
    &&& forall|k: int| pos <= k < start ==> is_ws(#[trigger] s[k])
    &&& start + m.len() + c < s.len()
    &&& s.subrange(start, start + m.len()) == m
    &&& forall|k: int| start + m.len() <= k < start + m.len() + c ==> #[trigger] s[k] == ' '
    &&& s[start + m.len() + c] == '}'
}

/// Whether, after whitespace from `pos`, the JSON elements of the safe
/// nodes `expect.0` at level `expect.1` in format `expect.2` stand at
/// `expect.3`, then `expect.4` spaces and `]`.
#[verifier::opaque]
pub open spec fn items_expected(
    s: Seq<char>,
    pos: int,
    st: Settings,
    depth: int,
    expect: Option<(Seq<Object>, nat, Emitter, int, nat)>,
) -> bool {
    let a = expect.unwrap().0;
    let start = expect.unwrap().3;
    let m = json_items(a, expect.unwrap().2, expect.unwrap().1, a.len() as int);
    let c = expect.unwrap().4;
    &&& expect is Some
    &&& is_json(expect.unwrap().2)
    &&& (expect.unwrap().2 == Emitter::JSONCompact ==> c == 0)
    &&& !st.lowercase
    &&& 0 <= depth <= MAX_NESTING
    &&& items_safe(a, (MAX_NESTING - depth) as nat, a.len() as int)
    &&& 0 <= pos <= start
    &&& forall|k: int| pos <= k < start ==> is_ws(#[trigger] s[k])
    &&& start + m.len() + c < s.len()
    &&& s.subrange(start, start + m.len()) == m
    &&& forall|k: int| start + m.len() <= k < start + m.len() + c ==> #[trigger] s[k] == ' '
    &&& s[start + m.len() + c] == ']'
}

/// Where the members or elements of a container written at `level` in
/// format `f` start after the opening bracket, and how many spaces come
/// before the closing one.
pub open spec fn inner_start(pos: int, f: Emitter, n: int) -> int {
    if n > 0 {
        pos + 1 + crate::emitter::line_end(f).len()
    } else {
        pos + 1
    }
}

pub open spec fn inner_close(level: nat, f: Emitter, n: int) -> nat {
    if n > 0 {
        crate::emitter::indent_of(level, f)
    } else {
        0
    }
}

proof fn lemma_json_ws(f: Emitter, n: nat)
    ensures
        forall|k: int| 0 <= k < crate::emitter::line_end(f).len() ==> is_ws(
            #[trigger] crate::emitter::line_end(f)[k],
        ),
        forall|k: int| 0 <= k < spaces(n).len() ==> #[trigger] spaces(n)[k] == ' ',
        forall|k: int| 0 <= k < crate::emitter::colon_space(f).len() ==> #[trigger] crate::emitter::colon_space(f)[k] == ' ',
{
}

#[verifier::rlimit(100)]
#[verifier::spinoff_prover]
proof fn lemma_value_container(
    s: Seq<char>,
    pos: int,
    st: Settings,
    depth: int,
    expect: Option<(Object, nat, Emitter)>,
)
    requires
        value_expected(s, pos, st, depth, expect),
        expect.unwrap().0.value is Object || expect.unwrap().0.value is Array,
    ensures
        ({
            let d = expect.unwrap().0;
            let l = expect.unwrap().1;
            let f = expect.unwrap().2;
            let nl = next_level(l);
            let jt = json_text(d, f, l);
            &&& depth < MAX_NESTING
            &&& (d.value is Object ==> s[pos] == '{' && ({
                let es = d.value->Object_0@;
                let st0 = inner_start(pos, f, es.len() as int);
                let c = inner_close(l, f, es.len() as int);
                &&& members_expected(s, pos + 1, st, depth + 1, Some((es, nl, f, st0, c)))
                &&& pos + jt.len() == st0 + json_members(es, f, nl, es.len() as int).len() + c + 1
            }))
            &&& (d.value is Array ==> s[pos] == '[' && ({
                let a = d.value->Array_0@;
                let st0 = inner_start(pos, f, a.len() as int);
                let c = inner_close(l, f, a.len() as int);
                &&& items_expected(s, pos + 1, st, depth + 1, Some((a, nl, f, st0, c)))
                &&& pos + jt.len() == st0 + json_items(a, f, nl, a.len() as int).len() + c + 1
            }))
        }),
{
    reveal(members_expected);
    reveal(items_expected);
    let d = expect.unwrap().0;
    let l = expect.unwrap().1;
    let f = expect.unwrap().2;
    let nl = next_level(l);
    let jt = json_text(d, f, l);
    let w = s.subrange(pos, pos + jt.len());
    assert(w == jt);
    let obj = d.value is Object;
    let n: int = if obj {
        d.value->Object_0@.len() as int
    } else {
        d.value->Array_0@.len() as int
    };
    let m = if obj {
        json_members(d.value->Object_0@, f, nl, n)
    } else {
        json_items(d.value->Array_0@, f, nl, n)
    };
    let open = if obj {
        '{'
    } else {
        '['
    };
    let close = if obj {
        '}'
    } else {
        ']'
    };
    let le = if n > 0 {
        crate::emitter::line_end(f)
    } else {
        Seq::<char>::empty()
    };
    let c = inner_close(l, f, n);
    if !obj {
        assert(jt == crate::emitter::json_array(d.value->Array_0@, f, l));
    }
    assert(jt =~= seq![open] + le + m + spaces(c) + seq![close]);
    lemma_json_ws(f, c);
    assert(s[pos] == w[0]);
    let st0 = pos + 1 + le.len();
    assert forall|k: int| pos + 1 <= k < st0 implies is_ws(#[trigger] s[k]) by {
        assert(s[k] == w[k - pos]);
        assert(w[k - pos] == le[k - pos - 1]);
    }
    assert(s.subrange(st0, st0 + m.len()) =~= m) by {
        assert forall|k: int| 0 <= k < m.len() implies s.subrange(st0, st0 + m.len())[k] == m[k] by {
            assert(s[st0 + k] == w[st0 + k - pos]);
        }
    }
    assert forall|k: int| st0 + m.len() <= k < st0 + m.len() + c implies #[trigger] s[k] == ' ' by {
        assert(s[k] == w[k - pos]);
        assert(w[k - pos] == spaces(c)[k - st0 - m.len()]);
    }
    assert(s[st0 + m.len() + c] == w[st0 + m.len() + c - pos]);
}

proof fn lemma_value_string(
    s: Seq<char>,
    pos: int,
    st: Settings,
    depth: int,
    expect: Option<(Object, nat, Emitter)>,
    vars: Seq<Variable>,
)
    requires
        value_expected(s, pos, st, depth, expect),
        expect.unwrap().0.value is String,
    ensures
        ({
            let d = expect.unwrap().0;
            let x = d.value->String_0@;
            let jt = json_text(d, expect.unwrap().2, expect.unwrap().1);
            &&& s[pos] == '"'
            &&& quoted_walk(s, pos + 1, '"') == Some((x, pos + jt.len()))
            &&& expand(x, vars_view(vars)) == x
            &&& !refused(x, vars, st)
        }),
{
    let d = expect.unwrap().0;
    let x = d.value->String_0@;
    let jt = json_text(d, expect.unwrap().2, expect.unwrap().1);
    let esc = escaped(x);
    assert(jt == quoted(x));
    assert(jt.subrange(1, 1 + esc.len() as int) =~= esc);
    let w = s.subrange(pos, pos + jt.len());
    assert(w == jt);
    assert(s[pos] == w[0]);
    assert(s.subrange(pos + 1, pos + 1 + esc.len()) =~= w.subrange(1, 1 + esc.len() as int));
    assert(s[pos + 1 + esc.len()] == w[1 + esc.len() as int]);
    lemma_escaped_read(s, pos + 1, x);
    lemma_no_dollar_expand(x, vars_view(vars), 0);
    assert(x.subrange(0, x.len() as int) =~= x);
}

proof fn lemma_value_leaf(s: Seq<char>, pos: int, st: Settings, depth: int, expect: Option<(Object, nat, Emitter)>)
    requires
        value_expected(s, pos, st, depth, expect),
        !(expect.unwrap().0.value is String),
        !(expect.unwrap().0.value is Object),
        !(expect.unwrap().0.value is Array),
    ensures
        ({
            let d = expect.unwrap().0;
            let jt = json_text(d, expect.unwrap().2, expect.unwrap().1);
            &&& !is_opening(s[pos])
            &&& !heredoc_opens(s, pos)
            &&& word_end(s, pos, false) == pos + jt.len()
            &&& bare_value(s, pos) == jt
            &&& jt.len() > 0
            &&& holds_scalar(d.value, scalar_of(jt, st.no_time), jt)
        }),
{
    let d = expect.unwrap().0;
    let f = expect.unwrap().2;
    let jt = json_text(d, f, expect.unwrap().1);
    lemma_leaf_plain(d.value, f);
    let w = s.subrange(pos, pos + jt.len());
    assert(w == jt);
    assert forall|m: int| pos <= m < pos + jt.len() implies is_plain(#[trigger] s[m]) by {
        assert(s[m] == w[m - pos]);
    }
    lemma_word_of_plain_any(s, pos, pos + jt.len(), false);
    assert(is_plain(s[pos + jt.len() - 1]));
    assert(trim_end(s, pos, pos + jt.len()) == pos + jt.len());
    assert(s[pos] == w[0]);
    lemma_leaf_round_trip(d.value, f, st.no_time);
}

/// Everything the entries loop needs to read member `i` of JSON members
/// expected at `pos` when the whitespace before it starts at or before
/// `p`.
#[verifier::rlimit(100)]
#[verifier::spinoff_prover]
proof fn lemma_jstep(
    s: Seq<char>,
    pos: int,
    st: Settings,
    depth: int,
    expect: Option<(Seq<Entry>, nat, Emitter, int, nat)>,
    i: int,
    p: int,
)
    requires
        members_expected(s, pos, st, depth, expect),
        0 <= i < expect.unwrap().0.len(),
        trivia_walk(s, p, 0) == trivia_walk(s, expect.unwrap().3 + json_members(
            expect.unwrap().0,
            expect.unwrap().2,
            expect.unwrap().1,
            i,
        ).len(), 0),
    ensures
        ({
            let xs = expect.unwrap().0;
            let l = expect.unwrap().1;
            let f = expect.unwrap().2;
            let start = expect.unwrap().3;
            let x = start + json_members(xs, f, l, i).len();
            let kp = x + crate::emitter::indent_of(l, f);
            let k = xs[i].key@;
            let e = kp + quoted(k).len();
            let vp = e + 1 + crate::emitter::colon_space(f).len();
            let v0 = xs[i].values@[0];
            let qe = vp + json_text(v0, f, l).len();
            let nxt = start + json_members(xs, f, l, i + 1).len();
            &&& xs[i].values@.len() == 1
            &&& entries_wf(entries_view(xs))
            &&& trivia_walk(s, p, 0) == Some(kp)
            &&& kp < s.len()
            &&& value_start(s, kp) == Some(vp)
            &&& key_text(s, kp, false) == k
            &&& s[kp] == '"'
            &&& quoted_walk(s, kp + 1, '"') == Some((k, e))
            &&& e < s.len()
            &&& s[e] == ':'
            &&& trivia_walk(s, e, 0) == Some(e)
            &&& trivia_walk(s, e + 1, 0) == Some(vp)
            &&& vp < s.len()
            &&& value_expected(s, vp, st, depth, Some((v0, l, f)))
            &&& qe < s.len()
            &&& (i + 1 < xs.len() ==> s[qe] == ',' && trivia_walk(s, qe, 0) == Some(qe)
                && trivia_walk(s, qe + 1, 0) == trivia_walk(s, nxt, 0))
            &&& (i + 1 == xs.len() ==> trivia_walk(s, qe, 0) == trivia_walk(s, nxt, 0)
                && trivia_walk(s, qe, 0) == Some(nxt + expect.unwrap().4) && s[nxt
                + expect.unwrap().4] == '}')
        }),
{
    reveal(members_expected);
    let xs = expect.unwrap().0;
    let l = expect.unwrap().1;
    let f = expect.unwrap().2;
    let start = expect.unwrap().3;
    let c = expect.unwrap().4;
    let total = json_members(xs, f, l, xs.len() as int);
    let mi = json_members(xs, f, l, i);
    let next = json_members(xs, f, l, i + 1);
    let k = xs[i].key@;
    let qk = quoted(k);
    let esc = escaped(k);
    let room = (MAX_NESTING - depth) as nat;
    lemma_members_safe_at(xs, room, xs.len() as int, i);
    let v0 = xs[i].values@[0];
    let vt = json_text(v0, f, l);
    lemma_members_prefix(xs, f, l, i + 1, xs.len() as int);
    lemma_json_first(v0, room, l, f);
    let ind = spaces(crate::emitter::indent_of(l, f));
    let cs = crate::emitter::colon_space(f);
    let cm = crate::emitter::comma(i, xs.len() as int);
    let le = crate::emitter::line_end(f);
    lemma_json_ws(f, crate::emitter::indent_of(l, f));
    assert(crate::emitter::json_chain(xs[i].values, f, l) == vt);
    let item = ind + qk + seq![':'] + cs + vt + cm + le;
    assert(next =~= mi + item);
    let x = start + mi.len();
    let w = s.subrange(start, start + total.len());
    assert(w == total);
    assert(total.subrange(0, next.len() as int) == next);
    assert forall|m: int| 0 <= m < item.len() implies s[x + m] == #[trigger] item[m] by {
        assert(s[x + m] == w[x + m - start]);
        assert(total[x + m - start] == next[mi.len() + m]);
    }
    let kp = x + ind.len();
    assert forall|m: int| x <= m < kp implies is_ws(#[trigger] s[m]) by {
        assert(s[x + (m - x)] == item[m - x]);
    }
    lemma_trivia_ws(s, x, kp);
    assert(s[x + ind.len()] == item[ind.len() as int]);
    assert(s.subrange(kp + 1, kp + 1 + esc.len()) =~= esc) by {
        assert forall|m: int| 0 <= m < esc.len() implies s.subrange(kp + 1, kp + 1 + esc.len())[m] == esc[m] by {
            assert(s[x + (ind.len() + 1 + m)] == item[ind.len() + 1 + m]);
        }
    }
    assert(s[x + (ind.len() + 1 + esc.len())] == item[(ind.len() + 1 + esc.len()) as int]);
    lemma_escaped_read(s, kp + 1, k);
    let e = kp + qk.len();
    assert(s[x + (ind.len() + qk.len())] == item[ind.len() + qk.len() as int]);
    let vp = e + 1 + cs.len();
    assert forall|m: int| e + 1 <= m < vp implies is_ws(#[trigger] s[m]) by {
        assert(s[x + (m - x)] == item[m - x]);
    }
    lemma_trivia_ws(s, e + 1, vp);
    assert(s.subrange(vp, vp + vt.len()) =~= vt) by {
        assert forall|m: int| 0 <= m < vt.len() implies s.subrange(vp, vp + vt.len())[m] == vt[m] by {
            assert(s[x + (vp - x + m)] == item[vp - x + m]);
        }
    }
    assert(s[vp] == s.subrange(vp, vp + vt.len())[0]);
    let qe = vp + vt.len();
    let nxt = start + next.len();
    if i + 1 < xs.len() {
        assert(s[x + (qe - x)] == item[qe - x]);
        assert(nxt == qe + 1 + le.len());
        assert forall|m: int| qe + 1 <= m < nxt implies is_ws(#[trigger] s[m]) by {
            assert(s[x + (m - x)] == item[m - x]);
        }
        lemma_trivia_ws(s, qe + 1, nxt);
    } else {
        assert(next == total);
        assert(nxt == qe + le.len());
        assert forall|m: int| qe <= m < nxt implies is_ws(#[trigger] s[m]) by {
            assert(s[x + (m - x)] == item[m - x]);
        }
        lemma_trivia_ws(s, qe, nxt);
        assert forall|m: int| nxt <= m < nxt + c implies is_ws(#[trigger] s[m]) by {
            assert(s[m] == ' ');
        }
        lemma_trivia_ws(s, nxt, nxt + c);
    }
    assert(word_at(s, vp, vt)) by {
        if i + 1 < xs.len() {
            assert(s[qe] == ',');
        } else if le.len() > 0 {
            assert(s[x + (qe - x)] == item[qe - x]);
        } else {
            assert(qe == nxt);
            assert(f == Emitter::JSONCompact);
            assert(s[nxt + c] == '}');
        }
    }
    assert(key_end(s, kp) == Some(e));
    assert(key_text(s, kp, false) =~= k);
}

/// Everything the elements loop needs to read element `i` of JSON
/// elements expected at `pos` when the whitespace before it starts at or
/// before `p`.
proof fn lemma_jitem(
    s: Seq<char>,
    pos: int,
    st: Settings,
    depth: int,
    expect: Option<(Seq<Object>, nat, Emitter, int, nat)>,
    i: int,
    p: int,
)
    requires
        items_expected(s, pos, st, depth, expect),
        0 <= i < expect.unwrap().0.len(),
        trivia_walk(s, p, 0) == trivia_walk(s, expect.unwrap().3 + json_items(
            expect.unwrap().0,
            expect.unwrap().2,
            expect.unwrap().1,
            i,
        ).len(), 0),
    ensures
        ({
            let xs = expect.unwrap().0;
            let l = expect.unwrap().1;
            let f = expect.unwrap().2;
            let start = expect.unwrap().3;
            let c = expect.unwrap().4;
            let x = start + json_items(xs, f, l, i).len();
            let vp = x + crate::emitter::indent_of(l, f);
            let qe = vp + json_text(xs[i], f, l).len();
            let nxt = start + json_items(xs, f, l, i + 1).len();
            &&& trivia_walk(s, p, 0) == Some(vp)
            &&& vp < s.len()
            &&& s[vp] != ']' && s[vp] != ',' && s[vp] != ';'
            &&& value_expected(s, vp, st, depth, Some((xs[i], l, f)))
            &&& qe < s.len()
            &&& (i + 1 < xs.len() ==> s[qe] == ',' && trivia_walk(s, qe, 0) == Some(qe)
                && trivia_walk(s, qe + 1, 0) == trivia_walk(s, nxt, 0))
            &&& (i + 1 == xs.len() ==> trivia_walk(s, qe, 0) == Some(nxt + c) && trivia_walk(
                s,
                nxt,
                0,
            ) == Some(nxt + c) && s[nxt + c] == ']' && (s[qe] != ',' && s[qe] != ';'))
        }),
{
    reveal(items_expected);
    let xs = expect.unwrap().0;
    let l = expect.unwrap().1;
    let f = expect.unwrap().2;
    let start = expect.unwrap().3;
    let c = expect.unwrap().4;
    let total = json_items(xs, f, l, xs.len() as int);
    let mi = json_items(xs, f, l, i);
    let next = json_items(xs, f, l, i + 1);
    let room = (MAX_NESTING - depth) as nat;
    lemma_items_safe_at(xs, room, xs.len() as int, i);
    lemma_items_prefix(xs, f, l, i + 1, xs.len() as int);
    lemma_json_first(xs[i], room, l, f);
    let vt = json_text(xs[i], f, l);
    let ind = spaces(crate::emitter::indent_of(l, f));
    let cm = crate::emitter::comma(i, xs.len() as int);
    let le = crate::emitter::line_end(f);
    lemma_json_ws(f, crate::emitter::indent_of(l, f));
    let item = ind + vt + cm + le;
    assert(next =~= mi + item);
    let x = start + mi.len();
    let w = s.subrange(start, start + total.len());
    assert(w == total);
    assert(total.subrange(0, next.len() as int) == next);
    assert forall|m: int| 0 <= m < item.len() implies s[x + m] == #[trigger] item[m] by {
        assert(s[x + m] == w[x + m - start]);
        assert(total[x + m - start] == next[mi.len() + m]);
    }
    let vp = x + ind.len();
    assert forall|m: int| x <= m < vp implies is_ws(#[trigger] s[m]) by {
        assert(s[x + (m - x)] == item[m - x]);
    }
    lemma_trivia_ws(s, x, vp);
    assert(s.subrange(vp, vp + vt.len()) =~= vt) by {
        assert forall|m: int| 0 <= m < vt.len() implies s.subrange(vp, vp + vt.len())[m] == vt[m] by {
            assert(s[x + (ind.len() + m)] == item[ind.len() + m]);
        }
    }
    assert(s[vp] == s.subrange(vp, vp + vt.len())[0]);
    let qe = vp + vt.len();
    let nxt = start + next.len();
    if i + 1 < xs.len() {
        assert(s[x + (qe - x)] == item[qe - x]);
        assert(nxt == qe + 1 + le.len());
        assert forall|m: int| qe + 1 <= m < nxt implies is_ws(#[trigger] s[m]) by {
            assert(s[x + (m - x)] == item[m - x]);
        }
        lemma_trivia_ws(s, qe + 1, nxt);
    } else {
        assert(next == total);
        assert(nxt == qe + le.len());
        assert forall|m: int| qe <= m < nxt implies is_ws(#[trigger] s[m]) by {
            assert(s[x + (m - x)] == item[m - x]);
        }
        lemma_trivia_ws(s, qe, nxt);
        assert forall|m: int| nxt <= m < nxt + c implies is_ws(#[trigger] s[m]) by {
            assert(s[m] == ' ');
        }
        lemma_trivia_ws(s, nxt, nxt + c);
        if le.len() > 0 {
            assert(s[x + (qe - x)] == item[qe - x]);
        } else {
            assert(f == Emitter::JSONCompact);
            assert(qe == nxt);
        }
    }
    assert(word_at(s, vp, vt)) by {
        if i + 1 == xs.len() {
            if le.len() > 0 {
                assert(s[x + (qe - x)] == item[qe - x]);
            } else {
                assert(qe == nxt);
                assert(f == Emitter::JSONCompact);
                assert(s[nxt + c] == ']');
            }
        }
    }
}

/// Whether `c` can start whitespace or a comment.
pub open spec fn is_trivia_start(c: char) -> bool {
    is_ws(c) || c == '#' || c == '/'
}

/// Whether the native text of the safe tree `expect` stands at `pos`, for
/// a parse with keys kept as they are and duplicate keys chained.
pub open spec fn cvalue_expected(
    s: Seq<char>,
    pos: int,
    st: Settings,
    depth: int,
    expect: Option<(Object, nat)>,
) -> bool {
    &&& expect is Some
    &&& !st.lowercase
    &&& st.implicit_arrays
    &&& 0 <= depth <= MAX_NESTING
    &&& config_safe(expect.unwrap().0, (MAX_NESTING - depth) as nat, st.no_time)
    &&& word_at(s, pos, config_text(expect.unwrap().0, expect.unwrap().1))
}

/// Whether, after whitespace from `pos`, the native statements of the
/// entries `expect.0` at level `expect.1` stand at `expect.2`; then, when
/// `closing`, `expect.3` spaces and `}`, else the end of the input.
#[verifier::opaque]
pub open spec fn cmembers_expected(
    s: Seq<char>,
    pos: int,
    st: Settings,
    depth: int,
    closing: bool,
    expect: Option<(Seq<Entry>, nat, int, nat)>,
) -> bool {
    let es = expect.unwrap().0;
    let start = expect.unwrap().2;
    let m = config_entries(es, expect.unwrap().1, es.len() as int);
    let c = expect.unwrap().3;
    &&& expect is Some
    &&& !st.lowercase
    &&& st.implicit_arrays
    &&& 0 <= depth <= MAX_NESTING
    &&& entries_wf(entries_view(es))
    &&& config_members_safe(es, (MAX_NESTING - depth) as nat, st.no_time, es.len() as int)
    &&& 0 <= pos <= start
    &&& forall|k: int| pos <= k < start ==> is_ws(#[trigger] s[k])
    &&& start + m.len() <= s.len()
    &&& s.subrange(start, start + m.len()) == m
    &&& closing ==> start + m.len() + c < s.len() && (forall|k: int|
        start + m.len() <= k < start + m.len() + c ==> #[trigger] s[k] == ' ') && s[start + m.len()
        + c] == '}'
    &&& !closing ==> start + m.len() == s.len()
}

/// Whether, after whitespace from `pos`, the native elements of `expect.0`
/// at level `expect.1` stand at `expect.2`, then `expect.3` spaces and `]`.
#[verifier::opaque]
pub open spec fn citems_expected(
    s: Seq<char>,
    pos: int,
    st: Settings,
    depth: int,
    expect: Option<(Seq<Object>, nat, int, nat)>,
) -> bool {
    let a = expect.unwrap().0;
    let start = expect.unwrap().2;
    let m = config_elements(a, expect.unwrap().1, a.len() as int);
    let c = expect.unwrap().3;
    &&& expect is Some
    &&& !st.lowercase
    &&& st.implicit_arrays
    &&& 0 <= depth <= MAX_NESTING
    &&& config_items_safe(a, (MAX_NESTING - depth) as nat, st.no_time, a.len() as int)
    &&& 0 <= pos <= start
    &&& forall|k: int| pos <= k < start ==> is_ws(#[trigger] s[k])
    &&& start + m.len() + c < s.len()
    &&& s.subrange(start, start + m.len()) == m
    &&& forall|k: int| start + m.len() <= k < start + m.len() + c ==> #[trigger] s[k] == ' '
    &&& s[start + m.len() + c] == ']'
}

proof fn lemma_cvalue_container(
    s: Seq<char>,
    pos: int,
    st: Settings,
    depth: int,
    expect: Option<(Object, nat)>,
)
    requires
        cvalue_expected(s, pos, st, depth, expect),
        expect.unwrap().0.value is Object || expect.unwrap().0.value is Array,
    ensures
        ({
            let d = expect.unwrap().0;
            let l = expect.unwrap().1;
            let nl = next_level(l);
            let c = config_indent_of(l);
            let jt = config_text(d, l);
            &&& depth < MAX_NESTING
            &&& (d.value is Object ==> s[pos] == '{' && ({
                let es = d.value->Object_0;
                &&& cmembers_expected(s, pos + 1, st, depth + 1, true, Some((es@, nl, pos + 2, c)))
                &&& jt.len() == config_entries(es@, nl, es@.len() as int).len() + c + 3
            }))
            &&& (d.value is Array ==> s[pos] == '[' && ({
                let a = d.value->Array_0;
                &&& citems_expected(s, pos + 1, st, depth + 1, Some((a@, nl, pos + 2, c)))
                &&& jt.len() == config_elements(a@, nl, a@.len() as int).len() + c + 3
            }))
        }),
{
    reveal(cmembers_expected);
    reveal(citems_expected);
    let d = expect.unwrap().0;
    let l = expect.unwrap().1;
    let nl = next_level(l);
    let c = config_indent_of(l);
    let jt = config_text(d, l);
    let w = s.subrange(pos, pos + jt.len());
    assert(w == jt);
    let m = if d.value is Object {
        config_entries(d.value->Object_0@, nl, d.value->Object_0@.len() as int)
    } else {
        config_elements(d.value->Array_0@, nl, d.value->Array_0@.len() as int)
    };
    let open = if d.value is Object {
        seq!['{', '\n']
    } else {
        seq!['[', '\n']
    };
    let close = if d.value is Object {
        '}'
    } else {
        ']'
    };
    assert(jt =~= open + m + spaces(c) + seq![close]);
    assert(s[pos] == w[0]);
    assert(s[pos + 1] == w[1]);
    assert(is_ws(s[pos + 1]));
    assert(s.subrange(pos + 2, pos + 2 + m.len()) =~= w.subrange(2, 2 + m.len() as int));
    assert(w.subrange(2, 2 + m.len() as int) =~= m);
    assert forall|k: int| pos + 2 + m.len() <= k < pos + 2 + m.len() + c implies #[trigger] s[k]
        == ' ' by {
        assert(s[k] == w[k - pos]);
    }
    assert(s[pos + 2 + m.len() + c] == w[(2 + m.len() + c) as int]);
}

proof fn lemma_cvalue_string(
    s: Seq<char>,
    pos: int,
    st: Settings,
    depth: int,
    expect: Option<(Object, nat)>,
    vars: Seq<Variable>,
)
    requires
        cvalue_expected(s, pos, st, depth, expect),
        expect.unwrap().0.value is String,
    ensures
        ({
            let d = expect.unwrap().0;
            let x = d.value->String_0@;
            let dd = dollars_doubled(x);
            let jt = config_text(d, expect.unwrap().1);
            &&& s[pos] == '"'
            &&& quoted_walk(s, pos + 1, '"') == Some((dd, pos + jt.len()))
            &&& expand(dd, vars_view(vars)) == x
            &&& !refused(dd, vars, st)
        }),
{
    let d = expect.unwrap().0;
    let x = d.value->String_0@;
    let dd = dollars_doubled(x);
    let jt = config_text(d, expect.unwrap().1);
    let esc = escaped(dd);
    assert(jt == quoted(dd));
    assert(jt.subrange(1, 1 + esc.len() as int) =~= esc);
    let w = s.subrange(pos, pos + jt.len());
    assert(w == jt);
    assert(s[pos] == w[0]);
    assert(s.subrange(pos + 1, pos + 1 + esc.len()) =~= w.subrange(1, 1 + esc.len() as int));
    assert(s[pos + 1 + esc.len()] == w[1 + esc.len() as int]);
    lemma_escaped_read(s, pos + 1, dd);
    assert(dd.subrange(0, dd.len() as int) =~= dd);
    lemma_expand_doubled(dd, vars_view(vars), 0, x);
}

proof fn lemma_cvalue_leaf(s: Seq<char>, pos: int, st: Settings, depth: int, expect: Option<(Object, nat)>)
    requires
        cvalue_expected(s, pos, st, depth, expect),
        !(expect.unwrap().0.value is String),
        !(expect.unwrap().0.value is Object),
        !(expect.unwrap().0.value is Array),
    ensures
        ({
            let d = expect.unwrap().0;
            let jt = config_text(d, expect.unwrap().1);
            &&& !is_opening(s[pos])
            &&& !heredoc_opens(s, pos)
            &&& word_end(s, pos, false) == pos + jt.len()
            &&& bare_value(s, pos) == jt
            &&& jt.len() > 0
            &&& holds_scalar(d.value, scalar_of(jt, st.no_time), jt)
        }),
{
    let d = expect.unwrap().0;
    let l = expect.unwrap().1;
    let jt = config_text(d, l);
    lemma_config_first(d, (MAX_NESTING - depth) as nat, st.no_time, l);
    let w = s.subrange(pos, pos + jt.len());
    assert(w == jt);
    assert forall|m: int| pos <= m < pos + jt.len() implies is_plain(#[trigger] s[m]) by {
        assert(s[m] == w[m - pos]);
    }
    lemma_word_of_plain_any(s, pos, pos + jt.len(), false);
    assert(is_plain(s[pos + jt.len() - 1]));
    assert(trim_end(s, pos, pos + jt.len()) == pos + jt.len());
    assert(s[pos] == w[0]);
    assert(leaf_text(d.value, Emitter::Config) == Some(jt));
    lemma_leaf_round_trip(d.value, Emitter::Config, st.no_time);
}

/// The text facts about statement `j` of entry `i` of members expected at
/// `start`.
proof fn lemma_cstatement_at(
    s: Seq<char>,
    start: int,
    es: Seq<Entry>,
    lv: nat,
    i: int,
    j: int,
    room: nat,
    no_time: bool,
)
    requires
        0 <= start,
        start + config_entries(es, lv, es.len() as int).len() <= s.len(),
        s.subrange(start, start + config_entries(es, lv, es.len() as int).len()) == config_entries(
            es,
            lv,
            es.len() as int,
        ),
        config_members_safe(es, room, no_time, es.len() as int),
        0 <= i < es.len(),
        0 <= j < es[i].values@.len(),
    ensures
        ({
            let k = es[i].key@;
            let vs = es[i].values@;
            let v = vs[j];
            let x = start + config_entries(es, lv, i).len() + config_statements(k, vs, lv, j).len();
            let kp = x + config_indent_of(lv);
            let kt = config_key(k);
            let e = kp + kt.len();
            let vt = config_text(v, lv);
            let container = v.value is Object || v.value is Array;
            let vp = if container {
                e + 1
            } else {
                e + 3
            };
            let after = vp + vt.len() + if container {
                1int
            } else {
                2int
            };
            &&& forall|m: int| x <= m < kp ==> #[trigger] s[m] == ' '
            &&& s.subrange(kp, e) == kt
            &&& e < s.len()
            &&& s[e] == ' '
            &&& config_safe(v, room, no_time)
            &&& !is_trivia_start(s[vp])
            &&& (container ==> s[e + 1] == s[vp] && (s[vp] == '{' || s[vp] == '['))
            &&& (!container ==> s[e + 1] == '=' && s[e + 2] == ' ')
            &&& word_at(s, vp, vt)
            &&& (!container ==> s[vp + vt.len()] == ';' && s[vp + vt.len() + 1] == '\n')
            &&& (container ==> s[vp + vt.len()] == '\n')
            &&& start + config_entries(es, lv, i).len() + config_statements(k, vs, lv, j + 1).len()
                == after
            &&& after <= start + config_entries(es, lv, es.len() as int).len()
        }),
{
    let k = es[i].key@;
    let vs = es[i].values@;
    let v = vs[j];
    let big = config_entries(es, lv, es.len() as int);
    let pre = config_entries(es, lv, i);
    let sj = config_statements(k, vs, lv, j);
    let sj1 = config_statements(k, vs, lv, j + 1);
    let sall = config_statements(k, vs, lv, vs.len() as int);
    lemma_config_members_safe_at(es, room, no_time, es.len() as int, i);
    lemma_config_items_safe_at(vs, room, no_time, vs.len() as int, j);
    lemma_config_first(v, room, no_time, lv);
    lemma_centries_prefix(es, lv, i + 1, es.len() as int);
    lemma_cstatements_prefix(k, vs, lv, j + 1, vs.len() as int);
    assert(config_entries(es, lv, i + 1) == pre + sall);
    let vt = config_text(v, lv);
    let kt = config_key(k);
    let container = v.value is Object || v.value is Array;
    let tail = if container {
        seq![' '] + vt + seq!['\n']
    } else {
        seq![' ', '=', ' '] + vt + seq![';', '\n']
    };
    let stmt = spaces(config_indent_of(lv)) + kt + tail;
    assert(sj1 == sj + stmt);
    let whole = pre + sj1;
    assert(big.subrange(0, whole.len() as int) =~= whole) by {
        assert(big.subrange(0, (pre + sall).len() as int) == pre + sall);
        assert(sall.subrange(0, sj1.len() as int) == sj1);
        assert((pre + sall).subrange(0, whole.len() as int) =~= whole);
    }
    let x = start + pre.len() + sj.len();
    assert forall|m: int| 0 <= m < stmt.len() implies s[x + m] == #[trigger] stmt[m] by {
        assert(s[x + m] == s.subrange(start, start + big.len())[x + m - start]);
        assert(big[x + m - start] == whole[x + m - start]);
        assert(whole[pre.len() + sj.len() + m] == stmt[m]);
    }
    let ci = config_indent_of(lv) as int;
    assert forall|m: int| x <= m < x + ci implies #[trigger] s[m] == ' ' by {
        assert(s[x + (m - x)] == stmt[m - x]);
    }
    let kp = x + ci;
    let e = kp + kt.len();
    assert(s.subrange(kp, e) =~= kt) by {
        assert forall|m: int| 0 <= m < kt.len() implies s.subrange(kp, e)[m] == kt[m] by {
            assert(s[x + (ci + m)] == stmt[ci + m]);
        }
    }
    assert(s[x + (ci + kt.len())] == stmt[ci + kt.len()]);
    let vp = if container {
        e + 1
    } else {
        e + 3
    };
    let off = vp - x;
    if !container {
        assert(s[x + (ci + kt.len() + 1)] == stmt[ci + kt.len() + 1]);
        assert(s[x + (ci + kt.len() + 2)] == stmt[ci + kt.len() + 2]);
    }
    assert(s.subrange(vp, vp + vt.len()) =~= vt) by {
        assert forall|m: int| 0 <= m < vt.len() implies s.subrange(vp, vp + vt.len())[m] == vt[m] by {
            assert(s[x + (off + m)] == stmt[off + m]);
        }
    }
    assert(s[vp] == s.subrange(vp, vp + vt.len())[0]);
    assert(s[x + (off + vt.len())] == stmt[off + vt.len()]);
    if !container {
        assert(s[x + (off + vt.len() + 1)] == stmt[off + vt.len() + 1]);
    }
}

/// The text facts about element `i` of elements expected at `start`.
proof fn lemma_celement_at(s: Seq<char>, start: int, a: Seq<Object>, lv: nat, i: int, room: nat, no_time: bool)
    requires
        0 <= start,
        start + config_elements(a, lv, a.len() as int).len() <= s.len(),
        s.subrange(start, start + config_elements(a, lv, a.len() as int).len()) == config_elements(
            a,
            lv,
            a.len() as int,
        ),
        config_items_safe(a, room, no_time, a.len() as int),
        0 <= i < a.len(),
    ensures
        ({
            let x = start + config_elements(a, lv, i).len();
            let vp = x + config_indent_of(lv);
            let vt = config_text(a[i], lv);
            &&& forall|m: int| x <= m < vp ==> #[trigger] s[m] == ' '
            &&& config_safe(a[i], room, no_time)
            &&& !is_trivia_start(s[vp])
            &&& s[vp] != ']' && s[vp] != ',' && s[vp] != ';'
            &&& word_at(s, vp, vt)
            &&& s[vp + vt.len()] == ','
            &&& s[vp + vt.len() + 1] == '\n'
            &&& start + config_elements(a, lv, i + 1).len() == vp + vt.len() + 2
            &&& vp + vt.len() + 2 <= start + config_elements(a, lv, a.len() as int).len()
        }),
{
    let big = config_elements(a, lv, a.len() as int);
    let pre = config_elements(a, lv, i);
    let nxt = config_elements(a, lv, i + 1);
    lemma_config_items_safe_at(a, room, no_time, a.len() as int, i);
    lemma_config_first(a[i], room, no_time, lv);
    lemma_celements_prefix(a, lv, i + 1, a.len() as int);
    let vt = config_text(a[i], lv);
    let ci = config_indent_of(lv) as int;
    let item = spaces(config_indent_of(lv)) + vt + seq![',', '\n'];
    assert(nxt == pre + item);
    let x = start + pre.len();
    assert forall|m: int| 0 <= m < item.len() implies s[x + m] == #[trigger] item[m] by {
        assert(s[x + m] == s.subrange(start, start + big.len())[x + m - start]);
        assert(big[x + m - start] == nxt[x + m - start]);
    }
    assert forall|m: int| x <= m < x + ci implies #[trigger] s[m] == ' ' by {
        assert(s[x + (m - x)] == item[m - x]);
    }
    let vp = x + ci;
    assert(s.subrange(vp, vp + vt.len()) =~= vt) by {
        assert forall|m: int| 0 <= m < vt.len() implies s.subrange(vp, vp + vt.len())[m] == vt[m] by {
            assert(s[x + (ci + m)] == item[ci + m]);
        }
    }
    assert(s[vp] == s.subrange(vp, vp + vt.len())[0]);
    assert(s[x + (ci + vt.len())] == item[ci + vt.len()]);
    assert(s[x + (ci + vt.len() + 1)] == item[ci + vt.len() + 1]);
}

/// How far into the members text statement `j` of entry `i` starts.
pub open spec fn stmt_offset(es: Seq<Entry>, lv: nat, i: int, j: int) -> int {
    config_entries(es, lv, i).len() + if 0 <= i < es.len() {
        config_statements(es[i].key@, es[i].values@, lv, j).len() as int
    } else {
        0int
    }
}

/// Where the next token after the statements before (`i`, `j`) stands, and
/// what it is: the key of statement `j` of entry `i`, or what ends the
/// members.
proof fn lemma_cnext_token(
    s: Seq<char>,
    pos: int,
    st: Settings,
    depth: int,
    closing: bool,
    expect: Option<(Seq<Entry>, nat, int, nat)>,
    i: int,
    j: int,
)
    requires
        cmembers_expected(s, pos, st, depth, closing, expect),
        0 <= i <= expect.unwrap().0.len(),
        i < expect.unwrap().0.len() ==> 0 <= j < expect.unwrap().0[i].values@.len(),
        i == expect.unwrap().0.len() ==> j == 0,
    ensures
        ({
            let es = expect.unwrap().0;
            let lv = expect.unwrap().1;
            let start = expect.unwrap().2;
            let m = config_entries(es, lv, es.len() as int);
            let y = start + stmt_offset(es, lv, i, j);
            &&& i < es.len() ==> ({
                let kp = y + config_indent_of(lv);
                let kt = config_key(es[i].key@);
                &&& trivia_walk(s, y, 0) == Some(kp)
                &&& kp < s.len()
                &&& s[kp] != ',' && s[kp] != ';' && s[kp] != '}' && s[kp] != '{' && s[kp] != '['
                &&& !is_trivia_start(s[kp])
                &&& s.subrange(kp, kp + kt.len()) == kt
                &&& kt.len() > 0
                &&& (is_bare_key(es[i].key@) ==> s[kp] != '"' && s[kp] != '\'' && s[kp] != '.'
                    && word_end(s, kp, true) == kp + kt.len())
                &&& (!is_bare_key(es[i].key@) ==> s[kp] == '"' && quoted_walk(s, kp + 1, '"')
                    == Some((es[i].key@, kp + kt.len())))
            })
            &&& i == es.len() && closing ==> trivia_walk(s, y, 0) == Some(start + m.len()
                + expect.unwrap().3) && s[start + m.len() + expect.unwrap().3] == '}' && start
                + m.len() + expect.unwrap().3 < s.len()
            &&& i == es.len() && !closing ==> trivia_walk(s, y, 0) == Some(s.len() as int) && y
                == s.len()
        }),
{
    reveal(cmembers_expected);
    let es = expect.unwrap().0;
    let lv = expect.unwrap().1;
    let start = expect.unwrap().2;
    let m = config_entries(es, lv, es.len() as int);
    let y = start + stmt_offset(es, lv, i, j);
    let room = (MAX_NESTING - depth) as nat;
    if i < es.len() {
        lemma_cstatement_at(s, start, es, lv, i, j, room, st.no_time);
        let kp = y + config_indent_of(lv);
        let k = es[i].key@;
        let kt = config_key(k);
        let e = kp + kt.len();
        assert forall|q: int| y <= q < kp implies is_ws(#[trigger] s[q]) by {
            assert(s[q] == ' ');
        }
        lemma_trivia_ws(s, y, kp);
        if is_bare_key(k) {
            assert(kt == k);
            assert(s[kp] == s.subrange(kp, e)[0]);
            assert forall|q: int| kp <= q < e implies is_plain(#[trigger] s[q]) || s[q] == '_' || (
            'A' <= s[q] && s[q] <= 'Z') by {
                assert(s[q] == s.subrange(kp, e)[q - kp]);
                assert(s.subrange(kp, e)[q - kp] == k[q - kp]);
            }
            lemma_word_of_plain_any(s, kp, e, true);
        } else {
            let esc = escaped(k);
            assert(kt == quoted(k));
            assert(s[kp] == s.subrange(kp, e)[0]);
            assert(s.subrange(kp + 1, kp + 1 + esc.len()) =~= s.subrange(kp, e).subrange(
                1,
                1 + esc.len() as int,
            ));
            assert(kt.subrange(1, 1 + esc.len() as int) =~= esc);
            assert(s[kp + 1 + esc.len()] == s.subrange(kp, e)[1 + esc.len() as int]);
            lemma_escaped_read(s, kp + 1, k);
        }
    } else {
        assert(stmt_offset(es, lv, i, j) == m.len());
        if closing {
            let c = expect.unwrap().3;
            assert forall|q: int| y <= q < y + c implies is_ws(#[trigger] s[q]) by {
                assert(s[q] == ' ');
            }
            lemma_trivia_ws(s, y, y + c);
        }
    }
}

/// Adding the value of statement `cj` of entry `ci` keeps the entries read
/// so far in step with the statements before it.
proof fn lemma_cinsert(
    ces: Seq<Entry>,
    before_es: Seq<Entry>,
    after_es: Seq<Entry>,
    ci: int,
    cj: int,
    kk: Seq<char>,
    vv: Object,
    prio: u32,
)
    requires
        entries_wf(entries_view(ces)),
        0 <= ci < ces.len(),
        0 <= cj < ces[ci].values@.len(),
        kk == ces[ci].key@,
        before_es.len() == ci + if cj > 0 {
            1int
        } else {
            0int
        },
        shape_entries(ces, before_es, ci),
        cj > 0 ==> before_es[ci].key@ == kk && before_es[ci].values@.len() == cj && shape_items(
            ces[ci].values@,
            before_es[ci].values@,
            cj,
        ),
        forall|j: int| 0 <= j < before_es.len() ==> #[trigger] before_es[j].key@ == ces[j].key@,
        forall|j: int|
            0 <= j < before_es.len() ==> (#[trigger] before_es[j].values@).len() > 0
                && before_es[j].values@[0].priority == prio,
        vv.priority == prio,
        same_shape(ces[ci].values@[cj], vv),
        entries_view(after_es) == insert_spec(entries_view(before_es), kk, vv),
    ensures
        after_es.len() == ci + 1,
        shape_entries(ces, after_es, ci),
        after_es[ci].key@ == kk,
        after_es[ci].values@.len() == cj + 1,
        shape_items(ces[ci].values@, after_es[ci].values@, cj + 1),
        cj + 1 == ces[ci].values@.len() ==> shape_entries(ces, after_es, ci + 1),
        forall|j: int| 0 <= j < after_es.len() ==> #[trigger] after_es[j].key@ == ces[j].key@,
        forall|j: int|
            0 <= j < after_es.len() ==> (#[trigger] after_es[j].values@).len() > 0
                && after_es[j].values@[0].priority == prio,
{
    let before = entries_view(before_es);
    let after = entries_view(after_es);
    let cvs = ces[ci].values@;
    assert forall|j: int| 0 <= j < ci implies before[j].0 != kk by {
        assert(before[j].0 == before_es[j].key@);
        assert(entries_view(ces)[j].0 == ces[j].key@);
        assert(entries_view(ces)[ci].0 == ces[ci].key@);
    }
    if cj == 0 {
        crate::object::lemma_find_key_from_absent(before, kk, 0);
        assert(after == before.push((kk, seq![vv])));
        assert(after[ci] == (kk, seq![vv]));
        assert(after_es[ci].values@ == seq![vv]);
        assert(shape_items(cvs, after_es[ci].values@, 0));
        assert(shape_items(cvs, after_es[ci].values@, 1));
    } else {
        crate::object::lemma_find_key_from_found(before, kk, 0, ci);
        let old_vals = before[ci].1;
        assert(old_vals == before_es[ci].values@);
        assert(after == before.update(ci, (kk, old_vals.push(vv))));
        assert(after[ci] == (kk, old_vals.push(vv)));
        assert(after_es[ci].values@ == old_vals.push(vv));
        lemma_shape_items_same(cvs, old_vals, after_es[ci].values@, cj);
        assert(shape_items(cvs, after_es[ci].values@, cj + 1));
    }
    assert forall|j: int| 0 <= j < ci implies #[trigger] after_es[j].key@ == before_es[j].key@
        && after_es[j].values@ == before_es[j].values@ by {
        assert(after[j] == before[j]);
    }
    lemma_shape_entries_views(ces, before_es, after_es, ci);
    assert forall|j: int| 0 <= j < after_es.len() implies #[trigger] after_es[j].key@
        == ces[j].key@ by {
        if j < ci {
            assert(after[j] == before[j]);
        } else {
            assert(after[ci].0 == kk);
        }
    }
    assert forall|j: int| 0 <= j < after_es.len() implies (#[trigger] after_es[j].values@).len()
        > 0 && after_es[j].values@[0].priority == prio by {
        if j < ci {
            assert(after[j] == before[j]);
            assert(after_es[j].values@ == before_es[j].values@);
        } else if cj > 0 {
            assert(before_es[ci].values@.len() > 0);
            assert(after_es[ci].values@[0] == before_es[ci].values@[0]);
        }
    }
}

/// The statement after statement `j` of entry `i`.
pub open spec fn next_statement(es: Seq<Entry>, i: int, j: int) -> (int, int) {
    if j + 1 < es[i].values@.len() {
        (i, j + 1)
    } else {
        (i + 1, 0)
    }
}

/// Everything the entries loop needs to read statement `j` of entry `i`
/// when the whitespace before it starts at or before `p`.
proof fn lemma_cstep(
    s: Seq<char>,
    pos: int,
    st: Settings,
    depth: int,
    closing: bool,
    expect: Option<(Seq<Entry>, nat, int, nat)>,
    i: int,
    j: int,
    p: int,
)
    requires
        cmembers_expected(s, pos, st, depth, closing, expect),
        0 <= i < expect.unwrap().0.len(),
        0 <= j < expect.unwrap().0[i].values@.len(),
        trivia_walk(s, p, 0) == trivia_walk(s, expect.unwrap().2 + stmt_offset(
            expect.unwrap().0,
            expect.unwrap().1,
            i,
            j,
        ), 0),
    ensures
        ({
            let es = expect.unwrap().0;
            let lv = expect.unwrap().1;
            let start = expect.unwrap().2;
            let k = es[i].key@;
            let v = es[i].values@[j];
            let kp = start + stmt_offset(es, lv, i, j) + config_indent_of(lv);
            let e = kp + config_key(k).len();
            let container = v.value is Object || v.value is Array;
            let vp = if container {
                e + 1
            } else {
                e + 3
            };
            let qe = vp + config_text(v, lv).len();
            let nx = next_statement(es, i, j);
            &&& trivia_walk(s, p, 0) == Some(kp)
            &&& kp < s.len()
            &&& value_start(s, kp) == Some(vp)
            &&& key_text(s, kp, false) == k
            &&& s[kp] != '}' && s[kp] != ',' && s[kp] != ';'
            &&& (is_bare_key(k) ==> s[kp] != '"' && s[kp] != '\'' && s[kp] != '.' && word_end(
                s,
                kp,
                true,
            ) == e && s.subrange(kp, e) == k)
            &&& (!is_bare_key(k) ==> s[kp] == '"' && quoted_walk(s, kp + 1, '"') == Some((k, e)))
            &&& e + 1 < s.len()
            &&& trivia_walk(s, e, 0) == Some(e + 1)
            &&& (container ==> s[e + 1] == '{' || s[e + 1] == '[')
            &&& (!container ==> s[e + 1] == '=' && e + 3 < s.len() && trivia_walk(s, e + 2, 0)
                == Some(e + 3))
            &&& cvalue_expected(s, vp, st, depth, Some((v, lv)))
            &&& qe < s.len()
            &&& (!container ==> s[qe] == ';' && trivia_walk(s, qe, 0) == Some(qe) && trivia_walk(
                s,
                qe + 1,
                0,
            ) == trivia_walk(s, start + stmt_offset(es, lv, nx.0, nx.1), 0))
            &&& (container ==> trivia_walk(s, qe, 0) is Some)
            &&& (container ==> trivia_walk(s, qe, 0) == trivia_walk(
                s,
                start + stmt_offset(es, lv, nx.0, nx.1),
                0,
            ) && (trivia_walk(s, qe, 0) matches Some(z) ==> (z == s.len() || (s[z] != ','
                && s[z] != ';')) && trivia_walk(s, z, 0) == Some(z)))
            &&& 0 <= nx.0 <= es.len()
            &&& nx.0 < es.len() ==> 0 <= nx.1 < es[nx.0].values@.len()
            &&& nx.0 == es.len() ==> nx.1 == 0
        }),
{
    reveal(cmembers_expected);
    let es = expect.unwrap().0;
    let lv = expect.unwrap().1;
    let start = expect.unwrap().2;
    let room = (MAX_NESTING - depth) as nat;
    let k = es[i].key@;
    let v = es[i].values@[j];
    lemma_cnext_token(s, pos, st, depth, closing, expect, i, j);
    lemma_cstatement_at(s, start, es, lv, i, j, room, st.no_time);
    let kp = start + stmt_offset(es, lv, i, j) + config_indent_of(lv);
    let e = kp + config_key(k).len();
    lemma_trivia_ws(s, e, e + 1);
    let container = v.value is Object || v.value is Array;
    if !container {
        lemma_trivia_ws(s, e + 2, e + 3);
    }
    let vp = if container {
        e + 1
    } else {
        e + 3
    };
    let qe = vp + config_text(v, lv).len();
    let nx = next_statement(es, i, j);
    if nx.0 < es.len() && nx.1 == 0 {
        lemma_config_members_safe_at(es, room, st.no_time, es.len() as int, nx.0);
    }
    assert(stmt_offset(es, lv, nx.0, nx.1) == stmt_offset(es, lv, i, j + 1));
    if !container {
        lemma_trivia_ws(s, qe + 1, qe + 2);
    } else {
        lemma_trivia_ws(s, qe, qe + 1);
        lemma_cnext_token(s, pos, st, depth, closing, expect, nx.0, nx.1);
        lemma_trivia_fixed(s, qe, 0);
    }    assert(key_end(s, kp) == Some(e));
    if is_bare_key(k) {
        assert(key_text(s, kp, false) =~= k);
    } else {
        assert(key_text(s, kp, false) =~= k);
    }
}

/// The positions in a text that, from `pos` on, holds a single statement
/// `key = value` (or `key: value`), where the key is a bare word and the
/// value a bare word or a double-quoted string, optionally followed by `;`
/// or `,`, with only whitespace and comments around: the key's start and
/// end, where the value starts, and where it ends.
pub open spec fn one_statement(s: Seq<char>, pos: int) -> Option<(int, int, int, int)> {
    match trivia_walk(s, pos, 0) {
        Some(a) => {
            let e = word_end(s, a, true);
            if a < s.len() && s[a] != '"' && s[a] != '\'' && s[a] != '.' && s[a] != '}' && s[a]
                != ',' && s[a] != ';' && s[a] != '{' && s[a] != '[' && e > a {
                match trivia_walk(s, e, 0) {
                    Some(b) => if b < s.len() && (s[b] == '=' || s[b] == ':') {
                        match trivia_walk(s, b + 1, 0) {
                            Some(c) => if c < s.len() && s[c] != '{' && s[c] != '[' && s[c]
                                != '\'' && !heredoc_opens(s, c) {
                                let we = if s[c] == '"' {
                                    match quoted_walk(s, c + 1, '"') {
                                        Some((_, qe)) => qe,
                                        None => -1,
                                    }
                                } else {
                                    word_end(s, c, false)
                                };
                                if we > c && (s[c] == '"' || bare_value(s, c).len() > 0) {
                                    match trivia_walk(s, we, 0) {
                                        Some(d) => if d == s.len() || (d < s.len() && (s[d] == ';'
                                            || s[d] == ',') && trivia_walk(s, d + 1, 0) == Some(
                                            s.len() as int,
                                        )) {
                                            Some((a, e, c, we))
                                        } else {
                                            None
                                        },
                                        None => None,
                                    }
                                } else {
                                    None
                                }
                            } else {
                                None
                            },
                            None => None,
                        }
                    } else {
                        None
                    },
                    None => None,
                }
            } else {
                None
            }
        },
        None => None,
    }
}

/// Whether the text from `pos` is a key and `=` or `:` with nothing but
/// whitespace and comments after it: a statement missing its value.
pub open spec fn value_missing(s: Seq<char>, pos: int) -> bool {
    match trivia_walk(s, pos, 0) {
        Some(a) => a < s.len() && s[a] != '"' && s[a] != '\'' && s[a] != '}' && s[a] != ','
            && s[a] != ';' && s[a] != '{' && s[a] != '[' && missing_after_key(s, a),
        None => false,
    }
}

/// Whether the key at `a` is followed by `=` or `:` and then only by
/// whitespace and comments.
pub open spec fn missing_after_key(s: Seq<char>, a: int) -> bool {
    match key_end(s, a) {
        Some(e) => match trivia_walk(s, e, 0) {
            Some(b) => b < s.len() && (s[b] == '=' || s[b] == ':') && trivia_walk(s, b + 1, 0)
                == Some(s.len() as int),
            None => false,
        },
        None => false,
    }
}

/// The text of the value of a single statement whose value starts at `c`:
/// the decoded string for a quoted value, else the bare word.
pub open spec fn statement_text(s: Seq<char>, c: int) -> Seq<char> {
    if s[c] == '"' {
        quoted_walk(s, c + 1, '"').unwrap().0
    } else {
        bare_value(s, c)
    }
}

/// Whether reading the single statement at positions `sp` is refused: its
/// value is text naming an unknown variable while such references are
/// errors.
pub open spec fn statement_refused(s: Seq<char>, sp: (int, int, int, int), st: Settings, vars: Seq<Variable>) -> bool {
    let t = statement_text(s, sp.2);
    (s[sp.2] == '"' || scalar_of(t, st.no_time) is Text) && refused(t, vars, st)
}

/// Whether `v` is what the value of the single statement at positions `sp`
/// reads as: the literal that a bare word stands for, or the string with
/// variables expanded.
pub open spec fn statement_value(
    s: Seq<char>,
    sp: (int, int, int, int),
    st: Settings,
    vars: Seq<Variable>,
    v: Object,
) -> bool {
    let t = statement_text(s, sp.2);
    if s[sp.2] == '"' {
        v.value matches Value::String(x) && x@ == expand(t, vars_view(vars))
    } else {
        holds_scalar(v.value, scalar_of(t, st.no_time), expand(t, vars_view(vars)))
    }
}

/// Whether the entries `es` are what the single statement at positions
/// `sp` reads as: one key, folded as the settings say, holding one value,
/// the literal that a bare word stands for or the string with variables
/// expanded.
pub open spec fn statement_entries(
    s: Seq<char>,
    sp: (int, int, int, int),
    st: Settings,
    vars: Seq<Variable>,
    es: Seq<Entry>,
) -> bool {
    let t = statement_text(s, sp.2);
    &&& es.len() == 1
    &&& es[0].key@ == folded(s.subrange(sp.0, sp.1), st.lowercase)
    &&& es[0].values@.len() == 1
    &&& es[0].values@[0].priority == st.priority
    &&& statement_value(s, sp, st, vars, es[0].values@[0])
}

proof fn lemma_jfresh(xs: Seq<Entry>, before_es: Seq<Entry>, i: int, kk: Seq<char>)
    requires
        entries_wf(entries_view(xs)),
        0 <= i < xs.len(),
        kk == xs[i].key@,
        before_es.len() == i,
        forall|j: int| 0 <= j < i ==> #[trigger] before_es[j].key@ == xs[j].key@,
    ensures
        crate::object::find_key(entries_view(before_es), kk) is None,
{
    let before = entries_view(before_es);
    assert forall|j: int| 0 <= j < before.len() implies before[j].0 != kk by {
        assert(before[j].0 == before_es[j].key@);
        assert(entries_view(xs)[j].0 == xs[j].key@);
        assert(entries_view(xs)[i].0 == xs[i].key@);
    }
    crate::object::lemma_find_key_from_absent(before, kk, 0);
}

proof fn lemma_jinsert(xs: Seq<Entry>, before_es: Seq<Entry>, after_es: Seq<Entry>, i: int, kk: Seq<char>, vv: Object)
    requires
        entries_wf(entries_view(xs)),
        0 <= i < xs.len(),
        kk == xs[i].key@,
        before_es.len() == i,
        shape_entries(xs, before_es, i),
        forall|j: int| 0 <= j < i ==> #[trigger] before_es[j].key@ == xs[j].key@,
        xs[i].values@.len() == 1,
        same_shape(xs[i].values@[0], vv),
        entries_view(after_es) == insert_spec(entries_view(before_es), kk, vv),
    ensures
        after_es.len() == i + 1,
        shape_entries(xs, after_es, i + 1),
        forall|j: int| 0 <= j < i + 1 ==> #[trigger] after_es[j].key@ == xs[j].key@,
{
    let before = entries_view(before_es);
    let after = entries_view(after_es);
    lemma_jfresh(xs, before_es, i, kk);
    assert(after == before.push((kk, seq![vv])));
    assert(after_es.len() == after.len());
    assert forall|j: int| 0 <= j < i implies #[trigger] after_es[j].key@ == before_es[j].key@
        && after_es[j].values@ == before_es[j].values@ by {
        assert(after[j] == before[j]);
    }
    lemma_shape_entries_views(xs, before_es, after_es, i);
    assert(after[i] == (kk, seq![vv]));
    assert(after_es[i].values@ == seq![vv]);
    assert(shape_items(xs[i].values@, after_es[i].values@, 0));
    assert(shape_items(xs[i].values@, after_es[i].values@, 1));
    assert forall|j: int| 0 <= j < i + 1 implies #[trigger] after_es[j].key@ == xs[j].key@ by {
        if j < i {
            assert(after[j] == before[j]);
        }
    }
}

proof fn lemma_lower_insert(
    before: Seq<(Seq<char>, Seq<Object>)>,
    after: Seq<(Seq<char>, Seq<Object>)>,
    kk: Seq<char>,
    vv: Object,
)
    requires
        entries_wf(before),
        keys_lowercase(before),
        is_lowercase(kk),
        after == insert_spec(before, kk, vv),
    ensures
        keys_lowercase(after),
{
    lemma_insert_spec(before, kk, vv);
    assert forall|j: int| 0 <= j < after.len() implies is_lowercase(#[trigger] after[j].0) by {
        if j < before.len() {
            assert(is_lowercase(before[j].0));
        }
    }
}

/// Reads the value starting at `pos`. Where the JSON text (`expect`) or
/// the native text (`cexpect`) of a safe tree stands there, the value read
/// has its shape.
pub fn parse_value(
    s: &Vec<char>,
    pos: usize,
    st: Settings,
    vars: &Vec<Variable>,
    depth: usize,
    key: Option<String>,
    expect: Ghost<Option<(Object, nat, Emitter)>>,
    cexpect: Ghost<Option<(Object, nat)>>,
) -> (r: Result<(Object, usize), Failure>)
    requires
        pos < s@.len(),
        depth <= MAX_NESTING,
    ensures
        cvalue_expected(s@, pos as int, st, depth as int, cexpect@) ==> (r matches Ok((o, e)) && e
            == pos + config_text(cexpect@.unwrap().0, cexpect@.unwrap().1).len() && same_shape(
            cexpect@.unwrap().0,
            o,
        )),
        value_expected(s@, pos as int, st, depth as int, expect@) ==> (r matches Ok((o, e)) && e
            == pos + json_text(expect@.unwrap().0, expect@.unwrap().2, expect@.unwrap().1).len()
            && same_shape(expect@.unwrap().0, o)),
        r matches Ok((o, e)) ==> pos < e <= s@.len() && o.priority == st.priority && o.key == key,
        r matches Ok((o, e)) ==> (st.lowercase ==> tree_lowercase(o)),
        s@[pos as int] == '"' ==> match quoted_walk(s@, pos + 1, '"') {
            Some((t, qe)) => (r is Err <==> refused(t, vars@, st)) && (r matches Ok((o, e)) ==> e
                == qe && (o.value matches Value::String(x) && x@ == expand(t, vars_view(vars@)))),
            None => r is Err,
        },
        s@[pos as int] == '\'' ==> match quoted_walk(s@, pos + 1, '\'') {
            Some((t, qe)) => r matches Ok((o, e)) && e == qe && (o.value matches Value::String(x)
                && x@ == t),
            None => r is Err,
        },
        !is_opening(s@[pos as int]) && !heredoc_opens(s@, pos as int) ==> {
            let w = bare_value(s@, pos as int);
            &&& r is Ok <==> w.len() > 0 && !(scalar_of(w, st.no_time) is Text && refused(
                w,
                vars@,
                st,
            ))
            &&& r matches Ok((o, e)) ==> e == word_end(s@, pos as int, false) && holds_scalar(
                o.value,
                scalar_of(w, st.no_time),
                expand(w, vars_view(vars@)),
            )
        },
    decreases MAX_NESTING - depth, 0nat,
{
    let n = s.len();
    let c = s[pos];
    let ghost json = value_expected(s@, pos as int, st, depth as int, expect@);
    let ghost d = expect@.unwrap().0;
    let ghost l = expect@.unwrap().1;
    let ghost f = expect@.unwrap().2;
    proof {
        if json {
            match d.value {
                Value::String(_) => lemma_value_string(s@, pos as int, st, depth as int, expect@, vars@),
                Value::Object(_) => lemma_value_container(s@, pos as int, st, depth as int, expect@),
                Value::Array(_) => lemma_value_container(s@, pos as int, st, depth as int, expect@),
                _ => lemma_value_leaf(s@, pos as int, st, depth as int, expect@),
            }
        }
    }
    let ghost cjson = cvalue_expected(s@, pos as int, st, depth as int, cexpect@);
    let ghost cd = cexpect@.unwrap().0;
    let ghost cl = cexpect@.unwrap().1;
    proof {
        if cjson {
            match cd.value {
                Value::String(_) => lemma_cvalue_string(s@, pos as int, st, depth as int, cexpect@, vars@),
                Value::Object(_) => lemma_cvalue_container(s@, pos as int, st, depth as int, cexpect@),
                Value::Array(_) => lemma_cvalue_container(s@, pos as int, st, depth as int, cexpect@),
                _ => lemma_cvalue_leaf(s@, pos as int, st, depth as int, cexpect@),
            }
        }
    }
    if c == '{' || c == '[' {
        if depth >= MAX_NESTING {
            return Err(Failure { problem: Problem::TooDeep, offset: pos });
        }
        if c == '{' {
            let ghost child: Option<(Seq<Entry>, nat, Emitter, int, nat)> = if json {
                match d.value {
                    Value::Object(es) => Some(
                        (
                            es@,
                            next_level(l),
                            f,
                            inner_start(pos as int, f, es@.len() as int),
                            inner_close(l, f, es@.len() as int),
                        ),
                    ),
                    _ => None,
                }
            } else {
                None
            };
            let ghost cchild: Option<(Seq<Entry>, nat, int, nat)> = if cjson {
                match cd.value {
                    Value::Object(es) => Some((es@, next_level(cl), pos + 2, config_indent_of(cl))),
                    _ => None,
                }
            } else {
                None
            };
            match parse_entries(s, pos + 1, st, vars, depth + 1, true, Ghost(child), Ghost(cchild)) {
                Ok((es, e)) => Ok((Object { key, priority: st.priority, value: Value::Object(es) }, e)),
                Err(f) => Err(f),
            }
        } else {
            let ghost child: Option<(Seq<Object>, nat, Emitter, int, nat)> = if json {
                match d.value {
                    Value::Array(a) => Some(
                        (
                            a@,
                            next_level(l),
                            f,
                            inner_start(pos as int, f, a@.len() as int),
                            inner_close(l, f, a@.len() as int),
                        ),
                    ),
                    _ => None,
                }
            } else {
                None
            };
            let ghost cchild: Option<(Seq<Object>, nat, int, nat)> = if cjson {
                match cd.value {
                    Value::Array(a) => Some((a@, next_level(cl), pos + 2, config_indent_of(cl))),
                    _ => None,
                }
            } else {
                None
            };
            match parse_elements(s, pos + 1, st, vars, depth + 1, Ghost(child), Ghost(cchild)) {
                Ok((a, e)) => Ok((Object { key, priority: st.priority, value: Value::Array(a) }, e)),
                Err(f) => Err(f),
            }
        }
    } else if c == '"' || c == '\'' {
        match scan_quoted(s, pos + 1, c) {
            Ok((t, e)) => {
                if c == '"' {
                    match text_node(&t, vars, st, key, pos) {
                        Ok(o) => Ok((o, e)),
                        Err(f) => Err(f),
                    }
                } else {
                    Ok((Object { key, priority: st.priority, value: Value::String(string_of(&t)) }, e))
                }
            },
            Err(le) => Err(Failure { problem: Problem::Lex(le), offset: pos }),
        }
    } else if let Some(b) = heredoc_start(s, pos) {
        match scan_heredoc(s, pos, b) {
            Ok((t, e)) => Ok((Object { key, priority: st.priority, value: Value::String(string_of(&t)) }, e)),
            Err(le) => Err(Failure { problem: Problem::Lex(le), offset: pos }),
        }
    } else {
        let e = scan_word(s, pos, false);
        let te = trim_trailing(s, pos, e);
        if te == pos {
            return Err(Failure { problem: Problem::ExpectedValue, offset: pos });
        }
        let mut w: Vec<char> = Vec::new();
        let mut j = pos;
        while j < te
            invariant
                pos <= j <= te <= s@.len(),
                w@ == s@.subrange(pos as int, j as int),
            decreases te - j,
        {
            w.push(s[j]);
            j = j + 1;
            assert(w@ =~= s@.subrange(pos as int, j as int));
        }
        let value = match classify(&w, st.no_time) {
            Scalar::Int(n) => Value::Int(n),
            Scalar::Float(d) => Value::Float(d),
            Scalar::Time(d) => Value::Time(d),
            Scalar::Boolean(b) => Value::Boolean(b),
            Scalar::Null => Value::Null,
            Scalar::Text => {
                return match text_node(&w, vars, st, key, pos) {
                    Ok(o) => Ok((o, e)),
                    Err(f) => Err(f),
                };
            },
        };
        Ok((Object { key, priority: st.priority, value }, e))
    }
}

/// Where the key starting at `p` ends: after the closing quote of a
/// quoted key, else at the end of the bare word (which may not start with
/// `.`, the macro sigil).
pub open spec fn key_end(s: Seq<char>, p: int) -> Option<int> {
    if s[p] == '"' || s[p] == '\'' {
        match quoted_walk(s, p + 1, s[p]) {
            Some((_, e)) => Some(e),
            None => None,
        }
    } else {
        let e = word_end(s, p, true);
        if e > p && s[p] != '.' {
            Some(e)
        } else {
            None
        }
    }
}

/// The key starting at `p`, folded to lowercase when `lowercase` is set.
pub open spec fn key_text(s: Seq<char>, p: int, lowercase: bool) -> Seq<char> {
    if s[p] == '"' || s[p] == '\'' {
        folded(quoted_walk(s, p + 1, s[p]).unwrap().0, lowercase)
    } else {
        folded(s.subrange(p, word_end(s, p, true)), lowercase)
    }
}

/// Where the value of the pair whose key starts at `p` starts: after the
/// key, whitespace, `:` or `=` and whitespace; or right at a `{` or `[`
/// that follows the key.
pub open spec fn value_start(s: Seq<char>, p: int) -> Option<int> {
    match key_end(s, p) {
        Some(e) => match trivia_walk(s, e, 0) {
            Some(b) => if b < s.len() && (s[b] == ':' || s[b] == '=') {
                match trivia_walk(s, b + 1, 0) {
                    Some(c) => if c < s.len() {
                        Some(c)
                    } else {
                        None
                    },
                    None => None,
                }
            } else if b < s.len() && (s[b] == '{' || s[b] == '[') {
                Some(b)
            } else {
                None
            },
            None => None,
        },
        None => None,
    }
}

/// What [`parse_pair`] reads when a value starts at [`value_start`]: what
/// [`parse_value`] says of the text there.
#[verifier::opaque]
pub open spec fn pair_read(
    s: Seq<char>,
    p: int,
    st: Settings,
    vars: Seq<Variable>,
    depth: int,
    expect: Option<(Object, nat, Emitter)>,
    cexpect: Option<(Object, nat)>,
    r: Result<(String, Object, usize), Failure>,
) -> bool {
    value_start(s, p) matches Some(c) ==> {
            &&& value_expected(s, c, st, depth, expect) ==> (r matches Ok((k, v, q)) && q
                == c + json_text(expect.unwrap().0, expect.unwrap().2, expect.unwrap().1).len()
                && same_shape(expect.unwrap().0, v))
            &&& cvalue_expected(s, c, st, depth, cexpect) ==> (r matches Ok((k, v, q)) && q
                == c + config_text(cexpect.unwrap().0, cexpect.unwrap().1).len() && same_shape(
                cexpect.unwrap().0,
                v,
            ))
            &&& s[c] == '"' ==> match quoted_walk(s, c + 1, '"') {
                Some((t, qe)) => (r is Err <==> refused(t, vars, st)) && (r matches Ok((k, v, q))
                    ==> q == qe && (v.value matches Value::String(x) && x@ == expand(
                    t,
                    vars_view(vars),
                ))),
                None => r is Err,
            }
            &&& !is_opening(s[c]) && !heredoc_opens(s, c) ==> {
                let w = bare_value(s, c);
                &&& r is Ok <==> w.len() > 0 && !(scalar_of(w, st.no_time) is Text && refused(
                    w,
                    vars,
                    st,
                ))
                &&& r matches Ok((k, v, q)) ==> q == word_end(s, c, false) && holds_scalar(
                    v.value,
                    scalar_of(w, st.no_time),
                    expand(w, vars_view(vars)),
                )
            }
        }
}

/// Reads a key, its separator and its value from `p`, where a key starts.
/// The value read is as [`parse_value`] says for the text at
/// [`value_start`].
pub fn parse_pair(
    s: &Vec<char>,
    p: usize,
    st: Settings,
    vars: &Vec<Variable>,
    depth: usize,
    expect: Ghost<Option<(Object, nat, Emitter)>>,
    cexpect: Ghost<Option<(Object, nat)>>,
) -> (r: Result<(String, Object, usize), Failure>)
    requires
        p < s@.len(),
        depth <= MAX_NESTING,
    ensures
        r matches Ok((k, v, q)) ==> {
            &&& value_start(s@, p as int) matches Some(c) && c < q <= s@.len() && p < q
            &&& k@ == key_text(s@, p as int, st.lowercase)
            &&& (st.lowercase ==> is_lowercase(k@))
            &&& v.priority == st.priority
            &&& (st.lowercase ==> tree_lowercase(v))
        },
        pair_read(s@, p as int, st, vars@, depth as int, expect@, cexpect@, r),
        missing_after_key(s@, p as int) ==> r is Err,
    decreases MAX_NESTING - depth, 1nat,
{
    proof {
        reveal(pair_read);
    }
    let n = s.len();
    let (key, q) = match parse_key(s, p, st) {
        Ok(x) => x,
        Err(f) => {
            return Err(f);
        },
    };
    let mut p = match skip_trivia(s, q) {
        Some(q) => q,
        None => {
            return Err(Failure { problem: Problem::Lex(LexError::UnterminatedComment), offset: q });
        },
    };
    if p < n && (s[p] == ':' || s[p] == '=') {
        p = match skip_trivia(s, p + 1) {
            Some(q) => q,
            None => {
                return Err(Failure { problem: Problem::Lex(LexError::UnterminatedComment), offset: p });
            },
        };
    } else if !(p < n && (s[p] == '{' || s[p] == '[')) {
        return Err(Failure { problem: Problem::ExpectedSeparator, offset: p });
    }
    if p == n {
        return Err(Failure { problem: Problem::ExpectedValue, offset: p });
    }
    match parse_value(s, p, st, vars, depth, Some(key.clone()), expect, cexpect) {
        Ok((v, q)) => Ok((key, v, q)),
        Err(f) => Err(f),
    }
}

proof fn lemma_one_statement(s: Seq<char>, pos: int, lowercase: bool)
    requires
        one_statement(s, pos) is Some,
        trivia_walk(s, pos, 0) == Some(pos),
    ensures
        ({
            let sp = one_statement(s, pos).unwrap();
            &&& sp.0 == pos
            &&& pos < s.len()
            &&& s[pos] != '}' && s[pos] != ',' && s[pos] != ';'
            &&& value_start(s, pos) == Some(sp.2)
            &&& key_text(s, pos, lowercase) == folded(s.subrange(sp.0, sp.1), lowercase)
            &&& sp.2 < s.len()
            &&& (s[sp.2] == '"' ==> (quoted_walk(s, sp.2 + 1, '"') matches Some((t, qe)) && qe == sp.3))
            &&& (s[sp.2] != '"' ==> !is_opening(s[sp.2]) && !heredoc_opens(s, sp.2) && word_end(
                s,
                sp.2,
                false,
            ) == sp.3 && bare_value(s, sp.2).len() > 0)
            &&& (trivia_walk(s, sp.3, 0) matches Some(d) && (d == s.len() || (d < s.len() && (s[d]
                == ';' || s[d] == ',') && trivia_walk(s, d + 1, 0) == Some(s.len() as int))))
        }),
{
}

proof fn lemma_members_frame(s: Seq<char>, pos: int, st: Settings, depth: int, expect: Option<(Seq<Entry>, nat, Emitter, int, nat)>)
    requires
        members_expected(s, pos, st, depth, expect),
    ensures
        ({
            let start = expect.unwrap().3;
            let y = start + json_members(expect.unwrap().0, expect.unwrap().2, expect.unwrap().1, expect.unwrap().0.len() as int).len();
            let c = expect.unwrap().4;
            &&& 0 <= pos <= start
            &&& trivia_walk(s, pos, 0) == trivia_walk(s, start, 0)
            &&& y + c < s.len()
            &&& trivia_walk(s, y, 0) == Some(y + c)
            &&& s[y + c] == '}'
            &&& json_members(expect.unwrap().0, expect.unwrap().2, expect.unwrap().1, 0).len() == 0
        }),
{
    reveal(members_expected);
    let start = expect.unwrap().3;
    let y = start + json_members(expect.unwrap().0, expect.unwrap().2, expect.unwrap().1, expect.unwrap().0.len() as int).len();
    let c = expect.unwrap().4;
    lemma_trivia_ws(s, pos, start);
    assert forall|q: int| y <= q < y + c implies is_ws(#[trigger] s[q]) by {
        assert(s[q] == ' ');
    }
    lemma_trivia_ws(s, y, y + c);
}

proof fn lemma_items_frame(s: Seq<char>, pos: int, st: Settings, depth: int, expect: Option<(Seq<Object>, nat, Emitter, int, nat)>)
    requires
        items_expected(s, pos, st, depth, expect),
    ensures
        ({
            let start = expect.unwrap().3;
            let y = start + json_items(expect.unwrap().0, expect.unwrap().2, expect.unwrap().1, expect.unwrap().0.len() as int).len();
            let c = expect.unwrap().4;
            &&& 0 <= pos <= start
            &&& trivia_walk(s, pos, 0) == trivia_walk(s, start, 0)
            &&& y + c < s.len()
            &&& trivia_walk(s, y, 0) == Some(y + c)
            &&& s[y + c] == ']'
            &&& json_items(expect.unwrap().0, expect.unwrap().2, expect.unwrap().1, 0).len() == 0
        }),
{
    reveal(items_expected);
    let start = expect.unwrap().3;
    let y = start + json_items(expect.unwrap().0, expect.unwrap().2, expect.unwrap().1, expect.unwrap().0.len() as int).len();
    let c = expect.unwrap().4;
    lemma_trivia_ws(s, pos, start);
    assert forall|q: int| y <= q < y + c implies is_ws(#[trigger] s[q]) by {
        assert(s[q] == ' ');
    }
    lemma_trivia_ws(s, y, y + c);
}

proof fn lemma_cmembers_frame(s: Seq<char>, pos: int, st: Settings, depth: int, closing: bool, expect: Option<(Seq<Entry>, nat, int, nat)>)
    requires
        cmembers_expected(s, pos, st, depth, closing, expect),
    ensures
        ({
            let ces = expect.unwrap().0;
            &&& trivia_walk(s, pos, 0) == trivia_walk(s, expect.unwrap().2, 0)
            &&& entries_wf(entries_view(ces))
            &&& st.implicit_arrays
            &&& ces.len() > 0 ==> ces[0].values@.len() >= 1
            &&& stmt_offset(ces, expect.unwrap().1, 0, 0) == 0
        }),
{
    reveal(cmembers_expected);
    let ces = expect.unwrap().0;
    lemma_trivia_ws(s, pos, expect.unwrap().2);
    if ces.len() > 0 {
        lemma_config_members_safe_at(ces, (MAX_NESTING - depth) as nat, st.no_time, ces.len() as int, 0);
    }
}

proof fn lemma_citems_frame(s: Seq<char>, pos: int, st: Settings, depth: int, expect: Option<(Seq<Object>, nat, int, nat)>)
    requires
        citems_expected(s, pos, st, depth, expect),
    ensures
        ({
            let start = expect.unwrap().2;
            let y = start + config_elements(expect.unwrap().0, expect.unwrap().1, expect.unwrap().0.len() as int).len();
            let c = expect.unwrap().3;
            &&& 0 <= pos <= start
            &&& trivia_walk(s, pos, 0) == trivia_walk(s, start, 0)
            &&& y + c < s.len()
            &&& trivia_walk(s, y, 0) == Some(y + c)
            &&& s[y + c] == ']'
            &&& config_elements(expect.unwrap().0, expect.unwrap().1, 0).len() == 0
        }),
{
    reveal(citems_expected);
    let start = expect.unwrap().2;
    let y = start + config_elements(expect.unwrap().0, expect.unwrap().1, expect.unwrap().0.len() as int).len();
    let c = expect.unwrap().3;
    lemma_trivia_ws(s, pos, start);
    assert forall|q: int| y <= q < y + c implies is_ws(#[trigger] s[q]) by {
        assert(s[q] == ' ');
    }
    lemma_trivia_ws(s, y, y + c);
}

/// Everything the elements loop needs to read element `k` of native
/// elements expected at `pos`.
proof fn lemma_citem(s: Seq<char>, pos: int, st: Settings, depth: int, expect: Option<(Seq<Object>, nat, int, nat)>, k: int)
    requires
        citems_expected(s, pos, st, depth, expect),
        0 <= k < expect.unwrap().0.len(),
    ensures
        ({
            let a = expect.unwrap().0;
            let lv = expect.unwrap().1;
            let start = expect.unwrap().2;
            let x = start + config_elements(a, lv, k).len();
            let vp = x + config_indent_of(lv);
            let vt = config_text(a[k], lv);
            &&& trivia_walk(s, x, 0) == Some(vp)
            &&& vp < s.len()
            &&& s[vp] != ']' && s[vp] != ',' && s[vp] != ';'
            &&& cvalue_expected(s, vp, st, depth, Some((a[k], lv)))
            &&& s[vp + vt.len()] == ','
            &&& vp + vt.len() + 1 < s.len()
            &&& trivia_walk(s, vp + vt.len(), 0) == Some(vp + vt.len())
            &&& trivia_walk(s, vp + vt.len() + 1, 0) == trivia_walk(s, start + config_elements(a, lv, k + 1).len(), 0)
            &&& start + config_elements(a, lv, k + 1).len() == vp + vt.len() + 2
            &&& vp + vt.len() + 2 <= start + config_elements(a, lv, a.len() as int).len()
        }),
{
    reveal(citems_expected);
    let a = expect.unwrap().0;
    let lv = expect.unwrap().1;
    let start = expect.unwrap().2;
    let room = (MAX_NESTING - depth) as nat;
    lemma_celement_at(s, start, a, lv, k, room, st.no_time);
    let x = start + config_elements(a, lv, k).len();
    let vp = x + config_indent_of(lv);
    let vt = config_text(a[k], lv);
    assert forall|q: int| x <= q < vp implies is_ws(#[trigger] s[q]) by {
        assert(s[q] == ' ');
    }
    lemma_trivia_ws(s, x, vp);
    lemma_trivia_ws(s, vp + vt.len() + 1, vp + vt.len() + 2);
}

/// Reads the entries of an object body from `pos`: up to the closing `}`
/// when `closing`, else to the end of the input. Where the JSON text of
/// the members of a safe object stands there (`expect`), or their native
/// statements (`cexpect`), the entries read have their keys and shapes.
#[verifier::rlimit(100)]
#[verifier::spinoff_prover]
pub fn parse_entries(
    s: &Vec<char>,
    pos: usize,
    st: Settings,
    vars: &Vec<Variable>,
    depth: usize,
    closing: bool,
    expect: Ghost<Option<(Seq<Entry>, nat, Emitter, int, nat)>>,
    cexpect: Ghost<Option<(Seq<Entry>, nat, int, nat)>>,
) -> (r: Result<(Vec<Entry>, usize), Failure>)
    requires
        pos <= s@.len(),
        depth <= MAX_NESTING,
    ensures
        r matches Ok((es, e)) ==> {
            &&& pos <= e <= s@.len()
            &&& entries_wf(entries_view(es@))
            &&& st.lowercase ==> keys_lowercase(entries_view(es@))
            &&& st.lowercase ==> chains_lowercase(es@)
        },
        closing && members_expected(s@, pos as int, st, depth as int, expect@) ==> (r matches Ok(
            (es, e),
        ) && e == expect@.unwrap().3 + json_members(
            expect@.unwrap().0,
            expect@.unwrap().2,
            expect@.unwrap().1,
            expect@.unwrap().0.len() as int,
        ).len() + expect@.unwrap().4 + 1 && es@.len() == expect@.unwrap().0.len() && shape_entries(
            expect@.unwrap().0,
            es@,
            es@.len() as int,
        )),
        cmembers_expected(s@, pos as int, st, depth as int, closing, cexpect@) ==> (r matches Ok(
            (es, e),
        ) && es@.len() == cexpect@.unwrap().0.len() && shape_entries(
            cexpect@.unwrap().0,
            es@,
            es@.len() as int,
        ) && (closing ==> e == cexpect@.unwrap().2 + config_entries(
            cexpect@.unwrap().0,
            cexpect@.unwrap().1,
            cexpect@.unwrap().0.len() as int,
        ).len() + cexpect@.unwrap().3 + 1) && (!closing ==> e == s@.len())),
        !closing && one_statement(s@, pos as int) is Some && trivia_walk(s@, pos as int, 0) == Some(
            pos as int,
        ) ==> (r is Err <==> statement_refused(
            s@,
            one_statement(s@, pos as int).unwrap(),
            st,
            vars@,
        )) && (r matches Ok((es, e)) ==> e == s@.len() && statement_entries(
            s@,
            one_statement(s@, pos as int).unwrap(),
            st,
            vars@,
            es@,
        )),
        !closing && pos == s@.len() ==> (r matches Ok((es, e)) && es@.len() == 0 && e == pos),
        !closing && value_missing(s@, pos as int) && trivia_walk(s@, pos as int, 0) == Some(
            pos as int,
        ) ==> r is Err,
    decreases MAX_NESTING - depth, 2nat,
{
    let ghost json = closing && members_expected(s@, pos as int, st, depth as int, expect@);
    let ghost xs = expect@.unwrap().0;
    let ghost l = expect@.unwrap().1;
    let ghost f = expect@.unwrap().2;
    let ghost jstart = expect@.unwrap().3;
    let ghost total = json_members(xs, f, l, xs.len() as int);
    let ghost cjson = cmembers_expected(s@, pos as int, st, depth as int, closing, cexpect@);
    let ghost ces = cexpect@.unwrap().0;
    let ghost clv = cexpect@.unwrap().1;
    let ghost cstart = cexpect@.unwrap().2;
    let ghost one = !closing && one_statement(s@, pos as int) is Some && trivia_walk(
        s@,
        pos as int,
        0,
    ) == Some(pos as int);
    let ghost sp = one_statement(s@, pos as int).unwrap();
    let ghost miss = !closing && value_missing(s@, pos as int) && trivia_walk(s@, pos as int, 0)
        == Some(pos as int);
    let ghost mut phase: int = 0;
    let ghost room = (MAX_NESTING - depth) as nat;
    let mut es: Vec<Entry> = Vec::new();
    let mut p = pos;
    let n = s.len();
    let ghost mut i: int = 0;
    let ghost mut ci: int = 0;
    let ghost mut cj: int = 0;
    proof {
        if json {
            lemma_members_frame(s@, pos as int, st, depth as int, expect@);
        }
        if cjson {
            lemma_cmembers_frame(s@, pos as int, st, depth as int, closing, cexpect@);
        }
    }
    while p <= n
        invariant
            pos <= p <= n == s@.len(),
            depth <= MAX_NESTING,
            one == (!closing && one_statement(s@, pos as int) is Some && trivia_walk(
                s@,
                pos as int,
                0,
            ) == Some(pos as int)),
            sp == one_statement(s@, pos as int).unwrap(),
            one ==> phase == 0 || phase == 1,
            miss == (!closing && value_missing(s@, pos as int) && trivia_walk(s@, pos as int, 0)
                == Some(pos as int)),
            miss ==> p == pos && es@.len() == 0,
            one && phase == 0 ==> p == pos && es@.len() == 0,
            one && phase == 1 ==> trivia_walk(s@, p as int, 0) == Some(n as int)
                && statement_entries(s@, sp, st, vars@, es@) && !statement_refused(
                s@,
                sp,
                st,
                vars@,
            ),
            !closing && pos == n ==> p == pos && es@.len() == 0,
            room == (MAX_NESTING - depth) as nat,
            entries_wf(entries_view(es@)),
            st.lowercase ==> chains_lowercase(es@),
            st.lowercase ==> keys_lowercase(entries_view(es@)),
            json == (closing && members_expected(s@, pos as int, st, depth as int, expect@)),
            xs == expect@.unwrap().0,
            l == expect@.unwrap().1,
            f == expect@.unwrap().2,
            jstart == expect@.unwrap().3,
            total == json_members(xs, f, l, xs.len() as int),
            json ==> 0 <= i <= xs.len(),
            json ==> trivia_walk(s@, p as int, 0) == trivia_walk(
                s@,
                jstart + json_members(xs, f, l, i).len(),
                0,
            ),
            json ==> es@.len() == i,
            json ==> shape_entries(xs, es@, i),
            json ==> forall|j: int| 0 <= j < i ==> #[trigger] es@[j].key@ == xs[j].key@,
            cjson == cmembers_expected(s@, pos as int, st, depth as int, closing, cexpect@),
            ces == cexpect@.unwrap().0,
            clv == cexpect@.unwrap().1,
            cstart == cexpect@.unwrap().2,
            cjson ==> 0 <= ci <= ces.len(),
            cjson && ci < ces.len() ==> 0 <= cj < ces[ci].values@.len(),
            cjson && ci == ces.len() ==> cj == 0,
            cjson ==> trivia_walk(s@, p as int, 0) == trivia_walk(
                s@,
                cstart + stmt_offset(ces, clv, ci, cj),
                0,
            ),
            cjson ==> es@.len() == ci + if cj > 0 {
                1int
            } else {
                0int
            },
            cjson ==> shape_entries(ces, es@, ci),
            cjson && cj > 0 ==> es@[ci].key@ == ces[ci].key@ && es@[ci].values@.len() == cj
                && shape_items(ces[ci].values@, es@[ci].values@, cj),
            cjson ==> forall|j: int| 0 <= j < es@.len() ==> #[trigger] es@[j].key@ == ces[j].key@,
            cjson ==> forall|j: int|
                0 <= j < es@.len() ==> (#[trigger] es@[j].values@).len() > 0
                    && es@[j].values@[0].priority == st.priority,
        decreases n - p + 1,
    {
        proof {
            if one && phase == 0 {
                lemma_one_statement(s@, pos as int, st.lowercase);
            }
            if json {
                if i < xs.len() {
                    lemma_jstep(s@, pos as int, st, depth as int, expect@, i, p as int);
                } else {
                    lemma_members_frame(s@, pos as int, st, depth as int, expect@);
                }
            }
            if cjson {
                lemma_cmembers_frame(s@, pos as int, st, depth as int, closing, cexpect@);
                if ci < ces.len() {
                    lemma_cstep(s@, pos as int, st, depth as int, closing, cexpect@, ci, cj, p as int);
                } else {
                    lemma_cnext_token(s@, pos as int, st, depth as int, closing, cexpect@, ci, cj);
                }
            }
        }
        p = match skip_trivia(s, p) {
            Some(q) => q,
            None => {
                return Err(Failure { problem: Problem::Lex(LexError::UnterminatedComment), offset: p });
            },
        };
        if p == n {
            if closing {
                return Err(Failure { problem: Problem::UnmatchedBrace, offset: pos });
            }
            return Ok((es, p));
        }
        let c = s[p];
        if c == '}' {
            if closing {
                return Ok((es, p + 1));
            }
            return Err(Failure { problem: Problem::UnexpectedClose, offset: p });
        }
        if c == ',' || c == ';' {
            p = p + 1;
        } else {
            let key_at = p;
            let ghost vs = xs[i].values@;
            let ghost cvs = ces[ci].values@;
            let ghost cv = cvs[cj];
            let ghost child: Option<(Object, nat, Emitter)> = if json {
                Some((vs[0], l, f))
            } else {
                None
            };
            let ghost cchild: Option<(Object, nat)> = if cjson {
                Some((cv, clv))
            } else {
                None
            };
            let pr = parse_pair(s, p, st, vars, depth, Ghost(child), Ghost(cchild));
            proof {
                if json {
                    let xl = json_text(vs[0], f, l).len();
                    assert(pr matches Ok((k, v, q)) && q == value_start(s@, p as int).unwrap() + xl
                        && same_shape(vs[0], v)) by {
                        reveal(pair_read);
                    }
                }
                if cjson {
                    let xl = config_text(cv, clv).len();
                    assert(pr matches Ok((k, v, q)) && q == value_start(s@, p as int).unwrap() + xl && same_shape(cv, v)) by {
                        reveal(pair_read);
                    }
                }
                if one && phase == 0 {
                    assert((pr is Err <==> statement_refused(s@, sp, st, vars@)) && (pr matches Ok(
                        (k, v, q),
                    ) ==> q == sp.3 && statement_value(s@, sp, st, vars@, v))) by {
                        reveal(pair_read);
                    }
                }
            }
            let (key, v, q) = match pr {
                Ok(x) => x,
                Err(f) => {
                                        return Err(f);
                },
            };
            let ghost before = entries_view(es@);
            let ghost before_es = es@;
            let ghost kk = key@;
            let ghost vv = v;
            proof {
                lemma_insert_spec(before, key@, v);
                if json {
                    lemma_jfresh(xs, before_es, i, kk);
                }
                if one {
                    assert(before.len() == 0);
                    crate::object::lemma_find_key_from_absent(before, kk, 0);
                }
            }
            if !insert_entry(&mut es, key, v, st.implicit_arrays) {
                return Err(Failure { problem: Problem::DuplicateKey, offset: key_at });
            }
            proof {
                if st.lowercase {
                    lemma_lower_insert(before, entries_view(es@), kk, vv);
                    lemma_chains_lowercase_insert(before_es, es@, kk, vv);
                }
                if json {
                    lemma_jinsert(xs, before_es, es@, i, kk, vv);
                }
                if cjson {
                    lemma_cinsert(ces, before_es, es@, ci, cj, kk, vv, st.priority);
                }
                if one {
                    assert(phase == 0);
                    assert(before.len() == 0);
                    assert(entries_view(es@) == before.push((kk, seq![vv])));
                    assert(entries_view(es@)[0] == (kk, seq![vv]));
                }
            }
            let ghost vend = q;
            p = match skip_trivia(s, q) {
                Some(q) => q,
                None => {
                    return Err(Failure { problem: Problem::Lex(LexError::UnterminatedComment), offset: q });
                },
            };
            let ghost ni: int = next_statement(ces, ci, cj).0;
            let ghost nj: int = next_statement(ces, ci, cj).1;
            if p < n && (s[p] == ',' || s[p] == ';') {
                p = p + 1;
            }
            proof {
                if json {
                    i = i + 1;
                }
                if cjson {
                    ci = ni;
                    cj = nj;
                }
                if one {
                    phase = 1;
                }
            }
        }
    }
    Err(Failure { problem: Problem::UnmatchedBrace, offset: pos })
}

/// Reads the elements of an array from `pos` up to the closing `]`. Where
/// the JSON text (`expect`) or the native text (`cexpect`) of the
/// elements of a safe array stands there, the elements read have their
/// shapes.
pub fn parse_elements(
    s: &Vec<char>,
    pos: usize,
    st: Settings,
    vars: &Vec<Variable>,
    depth: usize,
    expect: Ghost<Option<(Seq<Object>, nat, Emitter, int, nat)>>,
    cexpect: Ghost<Option<(Seq<Object>, nat, int, nat)>>,
) -> (r: Result<(Vec<Object>, usize), Failure>)
    requires
        pos <= s@.len(),
        depth <= MAX_NESTING,
    ensures
        r matches Ok((a, e)) ==> pos < e <= s@.len() && forall|i: int|
            0 <= i < a@.len() ==> (#[trigger] a@[i]).priority == st.priority,
        r matches Ok((a, e)) ==> (st.lowercase ==> forall|i: int|
            0 <= i < a@.len() ==> tree_lowercase(#[trigger] a@[i])),
        items_expected(s@, pos as int, st, depth as int, expect@) ==> (r matches Ok((a, e)) && e
            == expect@.unwrap().3 + json_items(
            expect@.unwrap().0,
            expect@.unwrap().2,
            expect@.unwrap().1,
            expect@.unwrap().0.len() as int,
        ).len() + expect@.unwrap().4 + 1 && a@.len() == expect@.unwrap().0.len() && shape_items(
            expect@.unwrap().0,
            a@,
            a@.len() as int,
        )),
        citems_expected(s@, pos as int, st, depth as int, cexpect@) ==> (r matches Ok((a, e))
            && e == cexpect@.unwrap().2 + config_elements(
            cexpect@.unwrap().0,
            cexpect@.unwrap().1,
            cexpect@.unwrap().0.len() as int,
        ).len() + cexpect@.unwrap().3 + 1 && a@.len() == cexpect@.unwrap().0.len() && shape_items(
            cexpect@.unwrap().0,
            a@,
            a@.len() as int,
        )),
    decreases MAX_NESTING - depth, 1nat,
{
    let ghost json = items_expected(s@, pos as int, st, depth as int, expect@);
    let ghost xs = expect@.unwrap().0;
    let ghost l = expect@.unwrap().1;
    let ghost f = expect@.unwrap().2;
    let ghost jstart = expect@.unwrap().3;
    let ghost total = json_items(xs, f, l, xs.len() as int);
    let ghost cjson = citems_expected(s@, pos as int, st, depth as int, cexpect@);
    let ghost cxs = cexpect@.unwrap().0;
    let ghost clv = cexpect@.unwrap().1;
    let ghost cstart = cexpect@.unwrap().2;
    let ghost cc = cexpect@.unwrap().3;
    let ghost ctotal = config_elements(cxs, clv, cxs.len() as int);
    let ghost room = (MAX_NESTING - depth) as nat;
    let mut a: Vec<Object> = Vec::new();
    let mut p = pos;
    let n = s.len();
    let ghost mut i: int = 0;
    let ghost mut ck: int = 0;
    proof {
        if json {
            lemma_items_frame(s@, pos as int, st, depth as int, expect@);
        }
        if cjson {
            lemma_citems_frame(s@, pos as int, st, depth as int, cexpect@);
        }
    }
    while p < n
        invariant
            pos <= p <= n == s@.len(),
            depth <= MAX_NESTING,
            room == (MAX_NESTING - depth) as nat,
            st.lowercase ==> forall|j: int| 0 <= j < a@.len() ==> tree_lowercase(#[trigger] a@[j]),
            forall|j: int| 0 <= j < a@.len() ==> (#[trigger] a@[j]).priority == st.priority,
            json == items_expected(s@, pos as int, st, depth as int, expect@),
            xs == expect@.unwrap().0,
            l == expect@.unwrap().1,
            f == expect@.unwrap().2,
            jstart == expect@.unwrap().3,
            total == json_items(xs, f, l, xs.len() as int),
            json ==> 0 <= i <= xs.len(),
            json ==> p <= jstart + json_items(xs, f, l, i).len(),
            json ==> trivia_walk(s@, p as int, 0) == trivia_walk(
                s@,
                jstart + json_items(xs, f, l, i).len(),
                0,
            ),
            json ==> a@.len() == i,
            json ==> shape_items(xs, a@, i),
            cjson == citems_expected(s@, pos as int, st, depth as int, cexpect@),
            cxs == cexpect@.unwrap().0,
            clv == cexpect@.unwrap().1,
            cstart == cexpect@.unwrap().2,
            cc == cexpect@.unwrap().3,
            ctotal == config_elements(cxs, clv, cxs.len() as int),
            cjson ==> 0 <= ck <= cxs.len(),
            cjson ==> p <= cstart + config_elements(cxs, clv, ck).len(),
            cjson ==> trivia_walk(s@, p as int, 0) == trivia_walk(
                s@,
                cstart + config_elements(cxs, clv, ck).len(),
                0,
            ),
            cjson ==> a@.len() == ck,
            cjson ==> shape_items(cxs, a@, ck),
        decreases n - p,
    {
        proof {
            if json {
                if i < xs.len() {
                    lemma_jitem(s@, pos as int, st, depth as int, expect@, i, p as int);
                } else {
                    lemma_items_frame(s@, pos as int, st, depth as int, expect@);
                }
            }
            if cjson {
                lemma_citems_frame(s@, pos as int, st, depth as int, cexpect@);
                if ck < cxs.len() {
                    lemma_citem(s@, pos as int, st, depth as int, cexpect@, ck);
                }
            }
        }
        p = match skip_trivia(s, p) {
            Some(q) => q,
            None => {
                return Err(Failure { problem: Problem::Lex(LexError::UnterminatedComment), offset: p });
            },
        };
        if p == n {
            return Err(Failure { problem: Problem::UnmatchedBracket, offset: pos });
        }
        let c = s[p];
        if c == ']' {
            return Ok((a, p + 1));
        }
        if c == ',' || c == ';' {
            p = p + 1;
        } else {
            let ghost child: Option<(Object, nat, Emitter)> = if json {
                Some((xs[i], l, f))
            } else {
                None
            };
            let ghost cchild: Option<(Object, nat)> = if cjson {
                Some((cxs[ck], clv))
            } else {
                None
            };
            let (v, q) = match parse_value(s, p, st, vars, depth, None, Ghost(child), Ghost(cchild)) {
                Ok(x) => x,
                Err(f) => {
                    return Err(f);
                },
            };
            let ghost before = a@;
            a.push(v);
            proof {
                if st.lowercase {
                    assert forall|j: int| 0 <= j < a@.len() implies tree_lowercase(#[trigger] a@[j]) by {
                        if j < before.len() {
                            assert(a@[j] == before[j]);
                        }
                    }
                }
                if json {
                    lemma_shape_items_same(xs, before, a@, i);
                    assert(shape_items(xs, a@, i + 1));
                }
                if cjson {
                    lemma_shape_items_same(cxs, before, a@, ck);
                    assert(shape_items(cxs, a@, ck + 1));
                }
            }
            let ghost vend = q;
            p = q;
            let r = skip_trivia(s, p);
            if let Some(q2) = r {
                if q2 < n && (s[q2] == ',' || s[q2] == ';') {
                    p = q2 + 1;
                }
            }
            proof {
                if json {
                    i = i + 1;
                }
                if cjson {
                    ck = ck + 1;
                }
            }
        }
    }
    proof {
        if json {
            lemma_items_prefix(xs, f, l, i, xs.len() as int);
        }
        if cjson {
            lemma_celements_prefix(cxs, clv, ck, cxs.len() as int);
        }
    }
    Err(Failure { problem: Problem::UnmatchedBracket, offset: pos })
}

/// Whether no key anywhere in `o`, at any depth, has an uppercase ASCII
/// letter.
pub open spec fn tree_lowercase(o: Object) -> bool
    decreases o,
{
    match o.value {
        Value::Object(es) => keys_lowercase(entries_view(es@)) && forall|i: int, j: int|
            0 <= i < es@.len() && 0 <= j < es@[i].values@.len() ==> tree_lowercase(
                #[trigger] es@[i].values@[j],
            ),
        Value::Array(a) => forall|i: int| 0 <= i < a@.len() ==> tree_lowercase(#[trigger] a@[i]),
        _ => true,
    }
}

/// Whether every value in every chain of `es` has only lowercase keys.
pub open spec fn chains_lowercase(es: Seq<Entry>) -> bool {
    forall|i: int, j: int|
        0 <= i < es.len() && 0 <= j < es[i].values@.len() ==> tree_lowercase(
            #[trigger] es[i].values@[j],
        )
}

proof fn lemma_chains_lowercase_insert(before_es: Seq<Entry>, after_es: Seq<Entry>, kk: Seq<char>, vv: Object)
    requires
        chains_lowercase(before_es),
        tree_lowercase(vv),
        entries_view(after_es) == insert_spec(entries_view(before_es), kk, vv),
    ensures
        chains_lowercase(after_es),
{
    let before = entries_view(before_es);
    let after = entries_view(after_es);
    crate::object::lemma_find_key_from_sound(before, kk, 0);
    assert forall|i: int, j: int|
        0 <= i < after_es.len() && 0 <= j < after_es[i].values@.len() implies tree_lowercase(
        #[trigger] after_es[i].values@[j],
    ) by {
        assert(after[i].1 == after_es[i].values@);
        assert(after.len() == after_es.len());
        assert(before.len() == before_es.len());
        match crate::object::find_key(before, kk) {
            None => {
                assert(after == before.push((kk, seq![vv])));
                if i < before.len() {
                    assert(after[i] == before[i]);
                    assert(before[i].1 == before_es[i].values@);
                    assert(tree_lowercase(before_es[i].values@[j]));
                } else {
                    assert(after[i].1 == seq![vv]);
                }
            },
            Some(idx) => {
                let chain = before[idx].1;
                assert(chain == before_es[idx].values@);
                if i != idx {
                    assert(after[i] == before[i]);
                    assert(before[i].1 == before_es[i].values@);
                    assert(tree_lowercase(before_es[i].values@[j]));
                } else if chain.len() == 0 || vv.priority > chain[0].priority {
                    assert(after[i].1 == seq![vv]);
                } else if vv.priority < chain[0].priority {
                    assert(after[i] == before[i]);
                    assert(tree_lowercase(before_es[i].values@[j]));
                } else {
                    assert(after[i].1 == chain.push(vv));
                    if j < chain.len() {
                        assert(tree_lowercase(before_es[i].values@[j]));
                    }
                }
            },
        }
    }
}

/// What holds of every document parsed under `st`: a top object or array
/// with no key and the chunk's priority, whose entries, for an object, are
/// well formed; when keys are folded, every key at every depth is
/// lowercase.
pub open spec fn document_ok(o: Object, st: Settings) -> bool {
    &&& o.key is None
    &&& o.priority == st.priority
    &&& o.value is Object || o.value is Array
    &&& o.value matches Value::Object(es) ==> entries_wf(entries_view(es@)) && (st.lowercase
        ==> keys_lowercase(entries_view(es@)))
    &&& st.lowercase ==> tree_lowercase(o)
}

/// Parses a whole document. The outer braces of the top object are
/// optional; a document may also be a single array.
///
/// Reading back what the emitters write, whatever variables are
/// registered and keys being kept as they are:
/// - when `s` is the JSON text, pretty or compact, of a top object
///   `expect` that is [`json_safe`], the document read has the keys, shape
///   and values of that object;
/// - when `s` is the native text of a top object `cexpect` that is
///   [`config_safe`] and duplicate keys are chained, the document read has
///   its keys, chains, shape and values.
pub fn parse_document(
    s: &Vec<char>,
    st: Settings,
    vars: &Vec<Variable>,
    expect: Ghost<Option<(Object, Emitter)>>,
    cexpect: Ghost<Option<Object>>,
) -> (r: Result<Object, Failure>)
    ensures
        cexpect@ matches Some(d) && d.value is Object && !st.lowercase && st.implicit_arrays
            && config_safe(d, MAX_NESTING as nat, st.no_time) && s@ == config_entries(
            d.value->Object_0@,
            0,
            d.value->Object_0@.len() as int,
        ) ==> (r matches Ok(o) && same_shape(cexpect@.unwrap(), o)),
        r matches Ok(o) ==> document_ok(o, st),
        s@.len() == 0 ==> (r matches Ok(o) && o.value matches Value::Object(es) && es@.len() == 0),
        value_missing(s@, 0) ==> r is Err,
        one_statement(s@, 0) is Some ==> (r is Err <==> statement_refused(
            s@,
            one_statement(s@, 0).unwrap(),
            st,
            vars@,
        )) && (r matches Ok(o) ==> (o.value matches Value::Object(es) && statement_entries(
            s@,
            one_statement(s@, 0).unwrap(),
            st,
            vars@,
            es@,
        ))),
        expect@ matches Some((d, f)) && is_json(f) && d.value is Object && !st.lowercase
            && json_safe(d, MAX_NESTING as nat) && s@ == json_text(d, f, 0) ==> (r matches Ok(o)
            && same_shape(expect@.unwrap().0, o)),
{
    let n = s.len();
    let ghost json = expect@ matches Some((d, f)) && is_json(f) && d.value is Object
        && !st.lowercase && json_safe(d, MAX_NESTING as nat) && s@ == json_text(d, f, 0);
    let ghost jd = expect@.unwrap().0;
    let ghost jf = expect@.unwrap().1;
    let ghost child: Option<(Seq<Entry>, nat, Emitter, int, nat)> = if json {
        Some(
            (
                jd.value->Object_0@,
                next_level(0),
                jf,
                inner_start(0, jf, jd.value->Object_0@.len() as int),
                inner_close(0, jf, jd.value->Object_0@.len() as int),
            ),
        )
    } else {
        None
    };
    proof {
        if json {
            assert(s@.subrange(0, s@.len() as int) =~= s@);
            assert(word_at(s@, 0, json_text(jd, jf, 0)));
            assert(value_expected(s@, 0, st, 0, Some((jd, 0nat, jf))));
            lemma_value_container(s@, 0, st, 0, Some((jd, 0nat, jf)));
        }
    }
    let ghost cjson = cexpect@ matches Some(d) && d.value is Object && !st.lowercase
        && st.implicit_arrays && config_safe(d, MAX_NESTING as nat, st.no_time) && s@
        == config_entries(d.value->Object_0@, 0, d.value->Object_0@.len() as int);
    let ghost cchild: Option<(Seq<Entry>, nat, int, nat)> = if cjson {
        Some((cexpect@.unwrap().value->Object_0@, 0, 0, 0))
    } else {
        None
    };
    proof {
        if cjson {
            let es = cexpect@.unwrap().value->Object_0@;
            assert(s@.subrange(0, s@.len() as int) =~= s@);
            if es.len() > 0 {
                lemma_config_members_safe_at(es, (MAX_NESTING - 1) as nat, st.no_time, es.len() as int, 0);
            }
            assert(cmembers_expected(s@, 0, st, 1, false, cchild)) by {
                reveal(cmembers_expected);
            }
            lemma_cnext_token(s@, 0, st, 1, false, cchild, 0, 0);
            assert(stmt_offset(es, 0, 0, 0) == 0);
        }
    }
    let p = match skip_trivia(s, 0) {
        Some(q) => q,
        None => {
            return Err(Failure { problem: Problem::Lex(LexError::UnterminatedComment), offset: 0 });
        },
    };
    proof {
        if one_statement(s@, 0) is Some {
            lemma_trivia_fixed(s@, 0, 0);
            assert(one_statement(s@, p as int) == one_statement(s@, 0));
        }
        if value_missing(s@, 0) {
            lemma_trivia_fixed(s@, 0, 0);
            assert(value_missing(s@, p as int));
        }
    }
    let (value, e) = if p < n && s[p] == '[' {
        match parse_elements(s, p + 1, st, vars, 1, Ghost(None), Ghost(None)) {
            Ok((a, e)) => (Value::Array(a), e),
            Err(f) => {
                return Err(f);
            },
        }
    } else {
        let braced = p < n && s[p] == '{';
        let start = if braced {
            p + 1
        } else {
            p
        };
        proof {
            if cjson {
                assert(cmembers_expected(s@, start as int, st, 1, braced, cchild)) by {
                    reveal(cmembers_expected);
                }
            }
        }
        match parse_entries(s, start, st, vars, 1, braced, Ghost(child), Ghost(cchild)) {
            Ok((es, e)) => (Value::Object(es), e),
            Err(f) => {
                return Err(f);
            },
        }
    };
    let q = match skip_trivia(s, e) {
        Some(q) => q,
        None => {
            return Err(Failure { problem: Problem::Lex(LexError::UnterminatedComment), offset: e });
        },
    };
    if q != n {
        return Err(Failure { problem: Problem::TrailingInput, offset: q });
    }
    Ok(Object { key: None, priority: st.priority, value })
}

/// Whether `s` is the JSON text, in format `f`, of the top object `d`,
/// which can go through JSON and back, for a parse under `st`.
pub open spec fn json_source(d: Object, f: Emitter, s: Seq<char>, st: Settings) -> bool {
    &&& is_json(f)
    &&& d.value is Object
    &&& !st.lowercase
    &&& json_safe(d, MAX_NESTING as nat)
    &&& s == json_text(d, f, 0)
}

/// Whether `s` is the native text of the top object `d`, which can go
/// through the native syntax and back, for a parse under `st`.
pub open spec fn config_source(d: Object, s: Seq<char>, st: Settings) -> bool {
    &&& d.value is Object
    &&& !st.lowercase
    &&& st.implicit_arrays
    &&& config_safe(d, MAX_NESTING as nat, st.no_time)
    &&& s == config_entries(d.value->Object_0@, 0, d.value->Object_0@.len() as int)
}

/// Whether `o` is what the text `s` reads as under `st` with the variables
/// `vars`: a well-formed document; for the empty text the empty object;
/// for a single statement the entry it defines; and for the JSON or native
/// text of a tree that goes through it, a tree of that tree's shape.
pub open spec fn document_read(s: Seq<char>, st: Settings, vars: Seq<Variable>, o: Object) -> bool {
    &&& document_ok(o, st)
    &&& s.len() == 0 ==> (o.value matches Value::Object(es) && es@.len() == 0)
    &&& one_statement(s, 0) is Some ==> (o.value matches Value::Object(es) && statement_entries(
        s,
        one_statement(s, 0).unwrap(),
        st,
        vars,
        es@,
    ))
    &&& (exists|d: Object, f: Emitter| json_source(d, f, s, st)) ==> same_shape(
        (choose|d: Object, f: Emitter| json_source(d, f, s, st)).0,
        o,
    )
    &&& (exists|d: Object| config_source(d, s, st)) ==> same_shape(
        choose|d: Object| config_source(d, s, st),
        o,
    )
}

/// Whether a document is owed for the text `s`: it is empty, a single
/// statement that is not refused, or the JSON or native text of a tree
/// that goes through it.
pub open spec fn document_owed(s: Seq<char>, st: Settings, vars: Seq<Variable>) -> bool {
    ||| s.len() == 0
    ||| (one_statement(s, 0) is Some && !statement_refused(s, one_statement(s, 0).unwrap(), st, vars))
    ||| (exists|d: Object, f: Emitter| json_source(d, f, s, st))
    ||| (exists|d: Object| config_source(d, s, st))
}

/// Whether the text `s` must be refused: a statement missing its value, or
/// a single statement whose value names an unknown variable while such
/// references are errors.
pub open spec fn document_refused(s: Seq<char>, st: Settings, vars: Seq<Variable>) -> bool {
    ||| value_missing(s, 0)
    ||| (one_statement(s, 0) is Some && statement_refused(s, one_statement(s, 0).unwrap(), st, vars))
}

/// Reads the document `s` as [`document_read`] says.
pub fn read_document(s: &Vec<char>, st: Settings, vars: &Vec<Variable>) -> (r: Result<Object, Failure>)
    ensures
        r matches Ok(o) ==> document_read(s@, st, vars@, o),
        document_owed(s@, st, vars@) ==> r is Ok,
        document_refused(s@, st, vars@) ==> r is Err,
{
    let ghost jexp: Option<(Object, Emitter)> = if exists|d: Object, f: Emitter| json_source(d, f, s@, st) {
        Some(choose|d: Object, f: Emitter| json_source(d, f, s@, st))
    } else {
        None
    };
    let ghost cexp: Option<Object> = if exists|d: Object| config_source(d, s@, st) {
        Some(choose|d: Object| config_source(d, s@, st))
    } else {
        None
    };
    parse_document(s, st, vars, Ghost(jexp), Ghost(cexp))
}

/// The number of newlines in `s[0..n]`.
pub open spec fn newlines_before(s: Seq<char>, n: int) -> int
    decreases n,
{
    if n <= 0 {
        0
    } else {
        newlines_before(s, n - 1) + if s[n - 1] == '\n' {
            1int
        } else {
            0int
        }
    }
}

/// The column of offset `n`: one more than the characters since the last
/// newline before it.
pub open spec fn column_at(s: Seq<char>, n: int) -> int
    decreases n,
{
    if n <= 0 {
        1
    } else if s[n - 1] == '\n' {
        1
    } else {
        column_at(s, n - 1) + 1
    }
}

/// The line and column, both counted from 1, of offset `off`.
pub fn line_column(s: &Vec<char>, off: usize) -> (r: (usize, usize))
    requires
        off <= s@.len() < usize::MAX,
    ensures
        r.0 as int == 1 + newlines_before(s@, off as int),
        r.1 as int == column_at(s@, off as int),
{
    let mut line: usize = 1;
    let mut col: usize = 1;
    let mut i: usize = 0;
    while i < off
        invariant
            i <= off <= s@.len() < usize::MAX,
            line as int == 1 + newlines_before(s@, i as int),
            col as int == column_at(s@, i as int),
            line <= i + 1,
            col <= i + 1,
        decreases off - i,
    {
        if s[i] == '\n' {
            line = line + 1;
            col = 1;
        } else {
            col = col + 1;
        }
        i = i + 1;
    }
    (line, col)
}

/// The description of a problem.
/// The description of a problem.
pub open spec fn problem_message(p: Problem) -> Seq<char> {
    match p {
        Problem::Lex(LexError::UnterminatedString) => "unterminated string"@,
        Problem::Lex(LexError::BadEscape) => "invalid escape sequence"@,
        Problem::Lex(LexError::UnterminatedComment) => "unterminated comment"@,
        Problem::Lex(LexError::UnterminatedHeredoc) => "unterminated heredoc"@,
        Problem::ExpectedKey => "key expected"@,
        Problem::ExpectedSeparator => "':' or '=' expected after key"@,
        Problem::ExpectedValue => "value expected"@,
        Problem::UnmatchedBrace => "unmatched '{'"@,
        Problem::UnmatchedBracket => "unmatched '['"@,
        Problem::UnexpectedClose => "unexpected '}'"@,
        Problem::DuplicateKey => "duplicate key"@,
        Problem::UnknownVariable => "unknown variable"@,
        Problem::TrailingInput => "unexpected input after the document"@,
        Problem::TooDeep => "nesting too deep"@,
        Problem::UnknownMacro => "unknown macro"@,
    }
}

pub fn problem_text(p: Problem) -> (r: String)
    ensures
        r@ == problem_message(p),
{
    match p {
        Problem::Lex(LexError::UnterminatedString) => "unterminated string".to_owned(),
        Problem::Lex(LexError::BadEscape) => "invalid escape sequence".to_owned(),
        Problem::Lex(LexError::UnterminatedComment) => "unterminated comment".to_owned(),
        Problem::Lex(LexError::UnterminatedHeredoc) => "unterminated heredoc".to_owned(),
        Problem::ExpectedKey => "key expected".to_owned(),
        Problem::ExpectedSeparator => "':' or '=' expected after key".to_owned(),
        Problem::ExpectedValue => "value expected".to_owned(),
        Problem::UnmatchedBrace => "unmatched '{'".to_owned(),
        Problem::UnmatchedBracket => "unmatched '['".to_owned(),
        Problem::UnexpectedClose => "unexpected '}'".to_owned(),
        Problem::DuplicateKey => "duplicate key".to_owned(),
        Problem::UnknownVariable => "unknown variable".to_owned(),
        Problem::TrailingInput => "unexpected input after the document".to_owned(),
        Problem::TooDeep => "nesting too deep".to_owned(),
        Problem::UnknownMacro => "unknown macro".to_owned(),
    }
}

/// The description of a syntax error at offset `off` of `s`: the line and
/// column, counted from 1, and the problem's text.
pub open spec fn syntax_message(s: Seq<char>, off: int, p: Problem) -> Seq<char> {
    "line "@ + decimal_of((1 + newlines_before(s, off)) as nat) + ", column "@ + decimal_of(
        column_at(s, off) as nat,
    ) + ": "@ + problem_message(p)
}

/// The error reported for a failure in `s`: `Nested` for nesting too deep,
/// `Macro` for an unknown macro, else a syntax error whose description is
/// [`syntax_message`].
pub fn error_of(s: &Vec<char>, f: Failure) -> (r: Error)
    requires
        f.offset <= s@.len() < usize::MAX,
    ensures
        f.problem == Problem::TooDeep ==> r is Nested,
        f.problem == Problem::UnknownMacro ==> r is Macro,
        f.problem != Problem::TooDeep && f.problem != Problem::UnknownMacro ==> (r matches Error::Syntax(
            m,
        ) && m@ == syntax_message(s@, f.offset as int, f.problem)),
{
    if f.problem == Problem::TooDeep {
        return Error::Nested;
    }
    if f.problem == Problem::UnknownMacro {
        return Error::Macro;
    }
    let (line, col) = line_column(s, f.offset);
    let mut m: Vec<char> = chars_of("line ");
    push_decimal(&mut m, line as u64);
    append_chars(&mut m, &chars_of(", column "));
    push_decimal(&mut m, col as u64);
    append_chars(&mut m, &chars_of(": "));
    let text = problem_text(f.problem);
    append_chars(&mut m, &chars_of(text.as_str()));
    assert(m@ =~= syntax_message(s@, f.offset as int, f.problem));
    Error::Syntax(string_of(&m))
}

/// A parser session: options, registered variables, and the document
/// accumulated from the chunks parsed so far.
pub struct Parser {
    pub flags: ParserFlags,
    pub vars: Vec<Variable>,
    pub root: Option<Object>,
}

impl Parser {
    /// A parser with default options.
    pub fn new() -> (r: Parser)
        ensures
            r.flags == DEFAULT,
            r.vars@.len() == 0,
            r.root is None,
    {
        Parser::with_flags(DEFAULT)
    }

    /// A parser with the options `flags`.
    pub fn with_flags(flags: ParserFlags) -> (r: Parser)
        ensures
            r.flags == flags,
            r.vars@.len() == 0,
            r.root is None,
    {
        Parser { flags, vars: Vec::new(), root: None }
    }

    /// Registers `value` for references to `$name`; a later registration
    /// of the same name takes precedence.
    pub fn register_var(&mut self, name: String, value: String)
        ensures
            vars_view(final(self).vars@) == vars_view(old(self).vars@).push((name@, value@)),
            final(self).flags == old(self).flags,
            final(self).root == old(self).root,
    {
        let v = Variable { name: chars_of(name.as_str()), value: chars_of(value.as_str()) };
        self.vars.push(v);
        assert(vars_view(self.vars@) =~= vars_view(old(self).vars@).push((name@, value@)));
    }

    /// Adds the document `tree` to the session: it becomes the document
    /// when there is none yet, and is merged into it otherwise.
    pub fn add_tree(&mut self, tree: Object)
        ensures
            final(self).flags == old(self).flags,
            final(self).vars == old(self).vars,
            match old(self).root {
                None => final(self).root == Some(tree),
                Some(r) => final(self).root matches Some(n) && merged(r, tree, n),
            },
    {
        match self.root.take() {
            None => {
                self.root = Some(tree);
            },
            Some(r) => {
                let mut r = r;
                r.merge(tree);
                self.root = Some(r);
            },
        }
    }

    /// Parses `text` as a chunk of priority `priority` and adds it to the
    /// session: the document read ([`document_read`]) becomes the session's
    /// document when there is none, and is merged into it otherwise. On
    /// failure the session is left as it was.
    pub fn add_chunk(&mut self, text: &str, priority: u32) -> (r: Result<(), Error>)
        ensures
            final(self).flags == old(self).flags,
            final(self).vars == old(self).vars,
            r is Err ==> final(self).root == old(self).root,
            r matches Err(e) ==> (e matches Error::Syntax(d) ==> exists|off: int, p: Problem|
                0 <= off <= text@.len() && #[trigger] syntax_message(text@, off, p) == d@),
            document_owed(text@, settings_of_spec(old(self).flags, priority), old(self).vars@) ==> r is Ok,
            document_refused(text@, settings_of_spec(old(self).flags, priority), old(self).vars@)
                ==> r is Err,
            r is Ok ==> match old(self).root {
                None => final(self).root matches Some(o) && document_read(
                    text@,
                    settings_of_spec(old(self).flags, priority),
                    old(self).vars@,
                    o,
                ),
                Some(r0) => final(self).root matches Some(n) && exists|d: Object|
                    document_read(text@, settings_of_spec(old(self).flags, priority), old(self).vars@, d)
                        && #[trigger] merged(r0, d, n),
            },
    {
        let s = chars_of(text);
        let st = settings_of(self.flags, priority);
        match read_document(&s, st, &self.vars) {
            Ok(tree) => {
                let ghost d = tree;
                self.add_tree(tree);
                proof {
                    if let Some(r0) = old(self).root {
                        assert(merged(r0, d, self.root.unwrap()));
                    }
                }
                Ok(())
            },
            Err(f) => {
                if f.offset <= s.len() && s.len() < usize::MAX {
                    let e = error_of(&s, f);
                    proof {
                        if e is Syntax {
                            assert(syntax_message(text@, f.offset as int, f.problem) == e->Syntax_0@);
                        }
                    }
                    Err(e)
                } else {
                    Err(Error::Internal)
                }
            },
        }
    }

    /// The document accumulated so far; `State` before any chunk was added.
    pub fn get_object(&self) -> (r: Result<&Object, Error>)
        ensures
            match self.root {
                Some(o) => r matches Ok(x) && *x == o,
                None => r matches Err(e) && e is State,
            },
    {
        match &self.root {
            Some(o) => Ok(o),
            None => Err(Error::State),
        }
    }

    /// Parses `text` as a chunk of priority 0 and returns the document read
    /// ([`document_read`]), merged into the one accumulated before if any,
    /// or the description of the error.
    pub fn parse(self, text: &str) -> (r: Result<Object, String>)
        ensures
            self.root is None ==> (document_owed(text@, settings_of_spec(self.flags, 0), self.vars@)
                ==> r is Ok),
            document_refused(text@, settings_of_spec(self.flags, 0), self.vars@) ==> r is Err,
            r matches Err(m) ==> exists|e: Error|
                #[trigger] error_message(e) == m@ && (e matches Error::Syntax(d) ==> exists|
                    off: int,
                    p: Problem,
                | 0 <= off <= text@.len() && #[trigger] syntax_message(text@, off, p) == d@),
            r matches Ok(o) ==> match self.root {
                None => document_read(text@, settings_of_spec(self.flags, 0), self.vars@, o),
                Some(r0) => exists|d: Object|
                    document_read(text@, settings_of_spec(self.flags, 0), self.vars@, d)
                        && #[trigger] merged(r0, d, o),
            },
    {
        let mut p = self;
        match p.add_chunk(text, 0) {
            Ok(()) => match p.root {
                Some(o) => Ok(o),
                None => Err(Error::State.message()),
            },
            Err(e) => {
                let m = e.message();
                proof {
                    assert(error_message(e) == m@);
                }
                Err(m)
            },
        }
    }
}

} // verus!
