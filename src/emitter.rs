//! Emitters: a document tree rendered as JSON, compact JSON, the native
//! configuration syntax, or a YAML-like block form.
use vstd::prelude::*;
use crate::object::{Entry, Object, Value};
use crate::text::{
    append_chars, chars_of, decimal_of, digit_char, push_decimal, push_signed, signed_decimal_of,
    string_of,
};
use crate::types::Decimal;

verus! {

broadcast use vstd::std_specs::vec::group_vec_axioms;

/// An output format.
#[derive(Debug, Copy, Clone, PartialEq, Eq, Structural)]
pub enum Emitter {
    /// JSON, indented by two spaces per level.
    JSON,
    /// JSON without whitespace.
    JSONCompact,
    /// The native syntax: `key = value;`, nested braces, a key repeated for
    /// each value of its chain.
    Config,
    /// An indented block form in the manner of YAML.
    YAML,
}

pub open spec fn hex_char(d: nat) -> char {
    if d < 10 {
        digit_char(d)
    } else {
        ((d - 10 + 97) as u8) as char
    }
}

/// How one character is written inside a double-quoted string.
pub open spec fn escape_char(c: char) -> Seq<char> {
    if c == '"' {
        seq!['\\', '"']
    } else if c == '\\' {
        seq!['\\', '\\']
    } else if c == '\n' {
        seq!['\\', 'n']
    } else if c == '\r' {
        seq!['\\', 'r']
    } else if c == '\t' {
        seq!['\\', 't']
    } else if c == '\x08' {
        seq!['\\', 'b']
    } else if c == '\x0c' {
        seq!['\\', 'f']
    } else if (c as u32) < 0x20 {
        seq!['\\', 'u', '0', '0', hex_char((c as u32 / 16) as nat), hex_char((c as u32 % 16) as nat)]
    } else {
        seq![c]
    }
}

/// The characters of `s`, each written as [`escape_char`] says.
pub open spec fn escaped(s: Seq<char>) -> Seq<char>
    decreases s.len(),
{
    if s.len() == 0 {
        Seq::empty()
    } else {
        escaped(s.drop_last()) + escape_char(s.last())
    }
}

/// `s` as a double-quoted string.
pub open spec fn quoted(s: Seq<char>) -> Seq<char> {
    seq!['"'] + escaped(s) + seq!['"']
}

fn push_hex(out: &mut Vec<char>, d: u32)
    requires
        d < 16,
    ensures
        final(out)@ == old(out)@.push(hex_char(d as nat)),
{
    if d < 10 {
        out.push(((d + 48) as u8) as char);
    } else {
        out.push(((d - 10 + 97) as u8) as char);
    }
}

/// Appends one character as [`escape_char`] writes it.
pub fn push_escaped_char(out: &mut Vec<char>, c: char)
    ensures
        final(out)@ == old(out)@ + escape_char(c),
{
    let ghost start = out@;
    if c == '"' {
        out.push('\\');
        out.push('"');
    } else if c == '\\' {
        out.push('\\');
        out.push('\\');
    } else if c == '\n' {
        out.push('\\');
        out.push('n');
    } else if c == '\r' {
        out.push('\\');
        out.push('r');
    } else if c == '\t' {
        out.push('\\');
        out.push('t');
    } else if c == '\x08' {
        out.push('\\');
        out.push('b');
    } else if c == '\x0c' {
        out.push('\\');
        out.push('f');
    } else if (c as u32) < 0x20 {
        out.push('\\');
        out.push('u');
        out.push('0');
        out.push('0');
        push_hex(out, c as u32 / 16);
        push_hex(out, c as u32 % 16);
    } else {
        out.push(c);
    }
    assert(out@ =~= start + escape_char(c));
}

/// Appends `s` as a double-quoted string.
pub fn push_quoted(out: &mut Vec<char>, s: &Vec<char>)
    ensures
        final(out)@ == old(out)@ + quoted(s@),
{
    let ghost start = out@;
    out.push('"');
    let mut i: usize = 0;
    while i < s.len()
        invariant
            i <= s@.len(),
            out@ == start + seq!['"'] + escaped(s@.take(i as int)),
        decreases s@.len() - i,
    {
        push_escaped_char(out, s[i]);
        assert(s@.take(i + 1).drop_last() =~= s@.take(i as int));
        i = i + 1;
        assert(out@ =~= start + seq!['"'] + escaped(s@.take(i as int)));
    }
    assert(s@.take(s@.len() as int) =~= s@);
    out.push('"');
    assert(out@ =~= start + quoted(s@));
}

/// `n` zeros.
pub open spec fn zeros(n: nat) -> Seq<char> {
    Seq::new(n, |i: int| '0')
}

/// The decimal `m * 10^e` written without loss: `me<e>` when `e` is not
/// negative, else the digits of `m` with a point `-e` places from the
/// right, padded with zeros so that a digit stands before the point.
pub open spec fn decimal_text(d: Decimal) -> Seq<char> {
    let sign = if d.mantissa < 0 {
        seq!['-']
    } else {
        Seq::empty()
    };
    let digits = decimal_of(
        if d.mantissa < 0 {
            -d.mantissa
        } else {
            d.mantissa as int
        } as nat,
    );
    if d.exponent >= 0 {
        sign + digits + seq!['e'] + decimal_of(d.exponent as nat)
    } else {
        sign + point_form(digits, (-d.exponent) as nat)
    }
}

/// `digits` with a point `places` digits from the right, zeros added in
/// front so that a digit stands before the point.
pub open spec fn point_form(digits: Seq<char>, places: nat) -> Seq<char> {
    let padded = if digits.len() <= places {
        zeros((places + 1 - digits.len()) as nat) + digits
    } else {
        digits
    };
    padded.subrange(0, padded.len() - places) + seq!['.'] + padded.subrange(
        padded.len() - places,
        padded.len() as int,
    )
}

/// Appends `digits` as [`point_form`] writes them.
fn push_point_form(out: &mut Vec<char>, digits: &Vec<char>, places: usize)
    requires
        places <= 0x80000000,
    ensures
        final(out)@ == old(out)@ + point_form(digits@, places as nat),
{
    let ghost start = out@;
    let mut padded: Vec<char> = Vec::new();
    if digits.len() <= places {
        let pad = places - digits.len() + 1;
        let mut k: usize = 0;
        while k < pad
            invariant
                k <= pad,
                padded@ == zeros(k as nat),
            decreases pad - k,
        {
            padded.push('0');
            k = k + 1;
            assert(padded@ =~= zeros(k as nat));
        }
    }
    append_chars(&mut padded, digits);
    let split = padded.len() - places;
    let mut j: usize = 0;
    while j < split
        invariant
            j <= split <= padded@.len(),
            out@ == start + padded@.subrange(0, j as int),
        decreases split - j,
    {
        out.push(padded[j]);
        j = j + 1;
        assert(out@ =~= start + padded@.subrange(0, j as int));
    }
    out.push('.');
    let ghost mid = out@;
    while j < padded.len()
        invariant
            split <= j <= padded@.len(),
            out@ == mid + padded@.subrange(split as int, j as int),
        decreases padded@.len() - j,
    {
        out.push(padded[j]);
        j = j + 1;
        assert(out@ =~= mid + padded@.subrange(split as int, j as int));
    }
    assert(out@ =~= start + point_form(digits@, places as nat));
}

/// Appends the decimal `d` as [`decimal_text`] writes it.
pub fn push_decimal_text(out: &mut Vec<char>, d: Decimal)
    ensures
        final(out)@ == old(out)@ + decimal_text(d),
{
    let ghost start = out@;
    let neg = d.mantissa < 0;
    let mag: u64 = if neg {
        (-(d.mantissa as i128)) as u64
    } else {
        d.mantissa as u64
    };
    let mut digits: Vec<char> = Vec::new();
    push_decimal(&mut digits, mag);
    assert(digits@ =~= decimal_of(mag as nat));
    if neg {
        out.push('-');
    }
    let ghost sign = if d.mantissa < 0 {
        seq!['-']
    } else {
        Seq::<char>::empty()
    };
    assert(out@ =~= start + sign);
    if d.exponent >= 0 {
        append_chars(out, &digits);
        out.push('e');
        push_decimal(out, d.exponent as u64);
        assert(out@ =~= start + decimal_text(d));
    } else {
        let places: usize = (-(d.exponent as i64)) as usize;
        push_point_form(out, &digits, places);
        assert(out@ =~= start + decimal_text(d));
    }
}

/// `s` with each `$` written twice, as the native syntax writes a `$` that
/// is not a variable reference.
pub open spec fn dollars_doubled(s: Seq<char>) -> Seq<char>
    decreases s.len(),
{
    if s.len() == 0 {
        Seq::empty()
    } else {
        dollars_doubled(s.drop_last()) + if s.last() == '$' {
            seq!['$', '$']
        } else {
            seq![s.last()]
        }
    }
}

/// `s` with each `$` written twice.
pub fn double_dollars(s: &Vec<char>) -> (r: Vec<char>)
    ensures
        r@ == dollars_doubled(s@),
{
    let mut out: Vec<char> = Vec::new();
    let mut i: usize = 0;
    while i < s.len()
        invariant
            i <= s@.len(),
            out@ == dollars_doubled(s@.take(i as int)),
        decreases s@.len() - i,
    {
        let ghost prev = out@;
        if s[i] == '$' {
            out.push('$');
        }
        out.push(s[i]);
        assert(s@.take(i + 1).drop_last() =~= s@.take(i as int));
        i = i + 1;
        assert(out@ =~= dollars_doubled(s@.take(i as int)));
    }
    assert(s@.take(s@.len() as int) =~= s@);
    out
}

/// How a leaf value is written in `fmt`: integers in decimal, decimals as
/// [`decimal_text`] says (a time with an `s` suffix in the native syntax),
/// `true`/`false`, `null` for null and user data, strings quoted (with
/// each `$` doubled in the native syntax). `None` for objects and arrays.
pub open spec fn leaf_text(v: Value, fmt: Emitter) -> Option<Seq<char>> {
    match v {
        Value::Int(n) => Some(signed_decimal_of(n as int)),
        Value::Float(d) => Some(decimal_text(d)),
        Value::Time(d) => if fmt == Emitter::Config {
            Some(decimal_text(d) + seq!['s'])
        } else {
            Some(decimal_text(d))
        },
        Value::String(s) => if fmt == Emitter::Config {
            Some(quoted(dollars_doubled(s@)))
        } else {
            Some(quoted(s@))
        },
        Value::Boolean(b) => if b {
            Some(seq!['t', 'r', 'u', 'e'])
        } else {
            Some(seq!['f', 'a', 'l', 's', 'e'])
        },
        Value::Null => Some(seq!['n', 'u', 'l', 'l']),
        Value::UserData => Some(seq!['n', 'u', 'l', 'l']),
        _ => None,
    }
}

fn push_lit(out: &mut Vec<char>, lit: &str)
    ensures
        final(out)@ == old(out)@ + lit@,
{
    append_chars(out, &chars_of(lit));
}

/// Appends a leaf value as [`leaf_text`] writes it.
pub fn push_leaf(out: &mut Vec<char>, v: &Value, fmt: Emitter)
    requires
        leaf_text(*v, fmt) is Some,
    ensures
        final(out)@ == old(out)@ + leaf_text(*v, fmt)->0,
{
    match v {
        Value::Int(n) => push_signed(out, *n),
        Value::Float(d) => push_decimal_text(out, *d),
        Value::Time(d) => {
            push_decimal_text(out, *d);
            if fmt == Emitter::Config {
                let ghost mid = out@;
                out.push('s');
                assert(out@ =~= old(out)@ + (decimal_text(*d) + seq!['s']));
            }
        },
        Value::String(s) => {
            let cs = chars_of(s.as_str());
            if fmt == Emitter::Config {
                push_quoted(out, &double_dollars(&cs));
            } else {
                push_quoted(out, &cs);
            }
        },
        Value::Boolean(b) => {
            if *b {
                push_lit(out, "true");
                proof {
                    reveal_strlit("true");
                }
                assert(out@ =~= old(out)@ + seq!['t', 'r', 'u', 'e']);
            } else {
                push_lit(out, "false");
                proof {
                    reveal_strlit("false");
                }
                assert(out@ =~= old(out)@ + seq!['f', 'a', 'l', 's', 'e']);
            }
        },
        _ => {
            push_lit(out, "null");
            proof {
                reveal_strlit("null");
            }
            assert(out@ =~= old(out)@ + seq!['n', 'u', 'l', 'l']);
        },
    }
}

fn push_indent(out: &mut Vec<char>, n: usize)
    ensures
        final(out)@ == old(out)@ + spaces(n as nat),
{
    let ghost start = out@;
    let mut i: usize = 0;
    while i < n
        invariant
            i <= n,
            out@ == start + spaces(i as nat),
        decreases n - i,
    {
        out.push(' ');
        i = i + 1;
        assert(out@ =~= start + spaces(i as nat));
    }
}

/// Whether a key can be written without quotes in the native syntax.
pub open spec fn is_bare_key(k: Seq<char>) -> bool {
    &&& k.len() > 0
    &&& forall|i: int|
        0 <= i < k.len() ==> {
            let c = #[trigger] k[i];
            ('a' <= c && c <= 'z') || ('A' <= c && c <= 'Z') || ('0' <= c && c <= '9') || c
                == '_' || c == '-'
        }
}

fn bare_key(k: &Vec<char>) -> (r: bool)
    ensures
        r == is_bare_key(k@),
{
    if k.len() == 0 {
        return false;
    }
    let mut i: usize = 0;
    while i < k.len()
        invariant
            i <= k@.len(),
            forall|m: int|
                0 <= m < i ==> {
                    let c = #[trigger] k@[m];
                    ('a' <= c && c <= 'z') || ('A' <= c && c <= 'Z') || ('0' <= c && c <= '9')
                        || c == '_' || c == '-'
                },
        decreases k@.len() - i,
    {
        let c = k[i];
        if !(('a' <= c && c <= 'z') || ('A' <= c && c <= 'Z') || ('0' <= c && c <= '9') || c
            == '_' || c == '-') {
            return false;
        }
        i = i + 1;
    }
    true
}

/// Appends a key: bare when [`is_bare_key`] allows it and `bare` is set,
/// else quoted.
fn push_key(out: &mut Vec<char>, k: &String, bare: bool)
    ensures
        bare && is_bare_key(k@) ==> final(out)@ == old(out)@ + k@,
        !(bare && is_bare_key(k@)) ==> final(out)@ == old(out)@ + quoted(k@),
{
    let cs = chars_of(k.as_str());
    if bare && bare_key(&cs) {
        append_chars(out, &cs);
    } else {
        push_quoted(out, &cs);
    }
}

/// The next nesting level; indentation stops growing at a very deep level.
fn deeper(level: usize) -> (r: usize)
    ensures
        r <= 100000,
        r == next_level(level as nat),
{
    if level < 100000 {
        level + 1
    } else {
        100000
    }
}

/// The indentation of nesting `level`: two spaces a level, none when
/// compact.
fn level_indent(level: usize, fmt: Emitter) -> (r: usize)
    ensures
        r == indent_of(level as nat, fmt),
{
    if fmt == Emitter::JSONCompact {
        0
    } else if level < 100000 {
        level + level
    } else {
        200000
    }
}

fn newline(out: &mut Vec<char>, fmt: Emitter)
    ensures
        final(out)@ == old(out)@ + line_end(fmt),
{
    if fmt != Emitter::JSONCompact {
        out.push('\n');
        assert(out@ =~= old(out)@ + line_end(fmt));
    } else {
        assert(out@ =~= old(out)@ + line_end(fmt));
    }
}

/// `n` spaces.
pub open spec fn spaces(n: nat) -> Seq<char> {
    Seq::new(n, |i: int| ' ')
}

/// The nesting level below `level`; it stops growing at a very deep level.
pub open spec fn next_level(level: nat) -> nat {
    if level < 100000 {
        level + 1
    } else {
        100000
    }
}

/// The indentation of nesting `level`: two spaces a level, none when
/// compact.
pub open spec fn indent_of(level: nat, fmt: Emitter) -> nat {
    if fmt == Emitter::JSONCompact {
        0
    } else if level < 100000 {
        2 * level
    } else {
        200000
    }
}

/// A line break, except in compact output.
pub open spec fn line_end(fmt: Emitter) -> Seq<char> {
    if fmt == Emitter::JSONCompact {
        Seq::empty()
    } else {
        seq!['\n']
    }
}

/// The space after a colon, except in compact output.
pub open spec fn colon_space(fmt: Emitter) -> Seq<char> {
    if fmt == Emitter::JSONCompact {
        Seq::empty()
    } else {
        seq![' ']
    }
}

/// A comma after the `i`th of `n` items, but the last.
pub open spec fn comma(i: int, n: int) -> Seq<char> {
    if i + 1 < n {
        seq![',']
    } else {
        Seq::empty()
    }
}

/// The JSON text of `o` at nesting `level`: an object's entries in order,
/// each key quoted, a chain of one value as that value and a longer chain
/// as an array; an array's elements in order; a leaf as [`leaf_text`]
/// writes it. Each entry or element stands on a line of its own, indented,
/// except in compact output.
pub open spec fn json_text(o: Object, fmt: Emitter, level: nat) -> Seq<char>
    decreases o, 0int, 0int,
{
    match o.value {
        Value::Object(es) => if es@.len() == 0 {
            seq!['{', '}']
        } else {
            seq!['{'] + line_end(fmt) + json_members(es@, fmt, next_level(level), es@.len() as int)
                + spaces(indent_of(level, fmt)) + seq!['}']
        },
        Value::Array(a) => json_array(a@, fmt, level),
        _ => match leaf_text(o.value, fmt) {
            Some(t) => t,
            None => Seq::empty(),
        },
    }
}

/// The first `n` entries of an object, each on its own line at `level`.
pub open spec fn json_members(es: Seq<Entry>, fmt: Emitter, level: nat, n: int) -> Seq<char>
    decreases es, 1int, n,
{
    if n <= 0 || n > es.len() {
        Seq::empty()
    } else {
        json_members(es, fmt, level, n - 1) + spaces(indent_of(level, fmt)) + quoted(
            es[n - 1].key@,
        ) + seq![':'] + colon_space(fmt) + json_chain(es[n - 1].values, fmt, level) + comma(
            n - 1,
            es.len() as int,
        ) + line_end(fmt)
    }
}

/// A chain of values: the value alone when there is one, else an array.
pub open spec fn json_chain(vs: Vec<Object>, fmt: Emitter, level: nat) -> Seq<char>
    decreases vs, 0int, 0int,
{
    if vs@.len() == 1 {
        json_text(vs@[0], fmt, level)
    } else {
        json_array(vs@, fmt, level)
    }
}

/// An array of the values `a` at nesting `level`.
pub open spec fn json_array(a: Seq<Object>, fmt: Emitter, level: nat) -> Seq<char>
    decreases a, 2int, 0int,
{
    if a.len() == 0 {
        seq!['[', ']']
    } else {
        seq!['['] + line_end(fmt) + json_items(a, fmt, next_level(level), a.len() as int) + spaces(
            indent_of(level, fmt),
        ) + seq![']']
    }
}

/// The first `n` elements of an array, each on its own line at `level`.
pub open spec fn json_items(a: Seq<Object>, fmt: Emitter, level: nat, n: int) -> Seq<char>
    decreases a, 1int, n,
{
    if n <= 0 || n > a.len() {
        Seq::empty()
    } else {
        json_items(a, fmt, level, n - 1) + spaces(indent_of(level, fmt)) + json_text(
            a[n - 1],
            fmt,
            level,
        ) + comma(n - 1, a.len() as int) + line_end(fmt)
    }
}

/// Appends the JSON form of `o` at nesting `level`.
#[verifier::rlimit(100)]
fn emit_json(out: &mut Vec<char>, o: &Object, fmt: Emitter, level: usize)
    ensures
        final(out)@ == old(out)@ + json_text(*o, fmt, level as nat),
    decreases o, 0nat,
{
    let ghost start = out@;
    let next = deeper(level);
    match &o.value {
        Value::Object(es) => {
            if es.len() == 0 {
                push_lit(out, "{}");
                proof {
                    reveal_strlit("{}");
                }
                assert(out@ =~= start + json_text(*o, fmt, level as nat));
                return;
            }
            out.push('{');
            newline(out, fmt);
            assert(out@ =~= start + seq!['{'] + line_end(fmt) + json_members(
                es@,
                fmt,
                next as nat,
                0,
            ));
            let mut i: usize = 0;
            while i < es.len()
                invariant
                    next <= 100000,
                    next == next_level(level as nat),
                    o.value == Value::Object(*es),
                    i <= es@.len(),
                    out@ == start + seq!['{'] + line_end(fmt) + json_members(
                        es@,
                        fmt,
                        next as nat,
                        i as int,
                    ),
                decreases es@.len() - i,
            {
                let ghost before = out@;
                let e: &Entry = &es[i];
                proof {
                    assert(decreases_to!(*o => o.value));
                    assert(o.value->Object_0 == *es);
                    assert(decreases_to!(o.value => o.value->Object_0));
                    assert(decreases_to!(*es => es@[i as int]));
                    assert(decreases_to!(es@[i as int] => es@[i as int].values));
                    assert(decreases_to!(*o => e.values));
                }
                push_indent(out, level_indent(next, fmt));
                push_key(out, &e.key, false);
                out.push(':');
                if fmt != Emitter::JSONCompact {
                    out.push(' ');
                }
                let ghost mid = out@;
                assert(mid =~= before + spaces(indent_of(next as nat, fmt)) + quoted(e.key@) + seq![
                    ':',
                ] + colon_space(fmt));
                emit_chain(out, &e.values, fmt, next);
                if i + 1 < es.len() {
                    out.push(',');
                }
                let ghost mid2 = out@;
                assert(mid2 =~= mid + json_chain(e.values, fmt, next as nat) + comma(
                    i as int,
                    es@.len() as int,
                ));
                newline(out, fmt);
                i = i + 1;
                assert(es@[i - 1] == *e);
                assert(out@ =~= start + seq!['{'] + line_end(fmt) + json_members(
                    es@,
                    fmt,
                    next as nat,
                    i as int,
                ));
            }
            let ghost body = out@;
            push_indent(out, level_indent(level, fmt));
            out.push('}');
            assert(out@ =~= body + spaces(indent_of(level as nat, fmt)) + seq!['}']);
            assert(out@ =~= start + json_text(*o, fmt, level as nat));
        },
        Value::Array(a) => {
            proof {
                assert(decreases_to!(*o => o.value));
                assert(o.value->Array_0 == *a);
                assert(decreases_to!(o.value => o.value->Array_0));
            }
            emit_json_array(out, a, fmt, level);
        },
        v => {
            push_leaf(out, v, fmt);
        },
    }
}

/// Appends the values of a chain: the value itself when there is one, an
/// array of them otherwise.
fn emit_chain(out: &mut Vec<char>, vs: &Vec<Object>, fmt: Emitter, level: usize)
    ensures
        final(out)@ == old(out)@ + json_chain(*vs, fmt, level as nat),
    decreases vs, 1nat,
{
    if vs.len() == 1 {
        proof {
            assert(decreases_to!(*vs => vs@[0]));
        }
        emit_json(out, &vs[0], fmt, level);
    } else {
        emit_json_array(out, vs, fmt, level);
    }
}

fn emit_json_array(out: &mut Vec<char>, a: &Vec<Object>, fmt: Emitter, level: usize)
    ensures
        final(out)@ == old(out)@ + json_array(a@, fmt, level as nat),
    decreases a, 0nat,
{
    let ghost start = out@;
    let next = deeper(level);
    if a.len() == 0 {
        push_lit(out, "[]");
        proof {
            reveal_strlit("[]");
        }
        assert(out@ =~= start + json_array(a@, fmt, level as nat));
        return;
    }
    out.push('[');
    newline(out, fmt);
    assert(out@ =~= start + seq!['['] + line_end(fmt) + json_items(a@, fmt, next as nat, 0));
    let mut i: usize = 0;
    while i < a.len()
        invariant
            next <= 100000,
            next == next_level(level as nat),
            i <= a@.len(),
            out@ == start + seq!['['] + line_end(fmt) + json_items(a@, fmt, next as nat, i as int),
        decreases a@.len() - i,
    {
        let ghost before = out@;
        push_indent(out, level_indent(next, fmt));
        proof {
            assert(decreases_to!(*a => a@[i as int]));
        }
        emit_json(out, &a[i], fmt, next);
        if i + 1 < a.len() {
            out.push(',');
        }
        let ghost mid = out@;
        assert(mid =~= before + spaces(indent_of(next as nat, fmt)) + json_text(
            a@[i as int],
            fmt,
            next as nat,
        ) + comma(i as int, a@.len() as int));
        newline(out, fmt);
        i = i + 1;
        assert(out@ =~= start + seq!['['] + line_end(fmt) + json_items(
            a@,
            fmt,
            next as nat,
            i as int,
        ));
    }
    let ghost body = out@;
    push_indent(out, level_indent(level, fmt));
    out.push(']');
    assert(out@ =~= body + spaces(indent_of(level as nat, fmt)) + seq![']']);
    assert(out@ =~= start + json_array(a@, fmt, level as nat));
}

/// A key in the native syntax: bare when [`is_bare_key`] allows it, else
/// quoted.
pub open spec fn config_key(k: Seq<char>) -> Seq<char> {
    if is_bare_key(k) {
        k
    } else {
        quoted(k)
    }
}

/// The indentation of nesting `level` in the native syntax: four spaces a
/// level.
pub open spec fn config_indent_of(level: nat) -> nat {
    if level < 100000 {
        4 * level
    } else {
        400000
    }
}

/// The native text of a value at nesting `level`: an object's entries in
/// braces, an array's elements in brackets each followed by a comma, a leaf
/// as [`leaf_text`] writes it.
pub open spec fn config_text(o: Object, level: nat) -> Seq<char>
    decreases o, 0int, 0int,
{
    match o.value {
        Value::Object(es) => seq!['{', '\n'] + config_entries(
            es@,
            next_level(level),
            es@.len() as int,
        ) + spaces(config_indent_of(level)) + seq!['}'],
        Value::Array(a) => seq!['[', '\n'] + config_elements(a@, next_level(level), a@.len() as int)
            + spaces(config_indent_of(level)) + seq![']'],
        _ => match leaf_text(o.value, Emitter::Config) {
            Some(t) => t,
            None => Seq::empty(),
        },
    }
}

/// The statements for the first `n` entries of an object at `level`.
pub open spec fn config_entries(es: Seq<Entry>, level: nat, n: int) -> Seq<char>
    decreases es, 1int, n,
{
    if n <= 0 || n > es.len() {
        Seq::empty()
    } else {
        config_entries(es, level, n - 1) + config_statements(
            es[n - 1].key@,
            es[n - 1].values@,
            level,
            es[n - 1].values@.len() as int,
        )
    }
}

/// One statement for each of the first `n` values of the chain `vs` under
/// key `k`: `k = leaf;`, or `k {...}` / `k [...]` for a container.
pub open spec fn config_statements(k: Seq<char>, vs: Seq<Object>, level: nat, n: int) -> Seq<char>
    decreases vs, 1int, n,
{
    if n <= 0 || n > vs.len() {
        Seq::empty()
    } else {
        let v = vs[n - 1];
        config_statements(k, vs, level, n - 1) + spaces(config_indent_of(level)) + config_key(k)
            + if v.value is Object || v.value is Array {
            seq![' '] + config_text(v, level) + seq!['\n']
        } else {
            seq![' ', '=', ' '] + config_text(v, level) + seq![';', '\n']
        }
    }
}

/// The first `n` elements of an array at `level`, each followed by a comma.
pub open spec fn config_elements(a: Seq<Object>, level: nat, n: int) -> Seq<char>
    decreases a, 1int, n,
{
    if n <= 0 || n > a.len() {
        Seq::empty()
    } else {
        config_elements(a, level, n - 1) + spaces(config_indent_of(level)) + config_text(
            a[n - 1],
            level,
        ) + seq![',', '\n']
    }
}

/// Appends the entries of an object in the native syntax at nesting
/// `level`: one statement per value of each chain.
fn emit_config_entries(out: &mut Vec<char>, es: &Vec<Entry>, level: usize)
    ensures
        final(out)@ == old(out)@ + config_entries(es@, level as nat, es@.len() as int),
    decreases es, 0nat,
{
    let ghost start = out@;
    let mut i: usize = 0;
    while i < es.len()
        invariant
            i <= es@.len(),
            out@ == start + config_entries(es@, level as nat, i as int),
        decreases es@.len() - i,
    {
        let e: &Entry = &es[i];
        proof {
            assert(decreases_to!(*es => es@[i as int]));
            assert(decreases_to!(es@[i as int] => es@[i as int].values));
        }
        let ghost before = out@;
        emit_config_chain(out, &e.key, &e.values, level);
        i = i + 1;
        assert(es@[i - 1] == *e);
        assert(out@ =~= start + config_entries(es@, level as nat, i as int));
    }
}

fn emit_config_chain(out: &mut Vec<char>, key: &String, vs: &Vec<Object>, level: usize)
    ensures
        final(out)@ == old(out)@ + config_statements(key@, vs@, level as nat, vs@.len() as int),
    decreases vs, 1nat,
{
    let ghost start = out@;
    let mut j: usize = 0;
    while j < vs.len()
        invariant
            j <= vs@.len(),
            out@ == start + config_statements(key@, vs@, level as nat, j as int),
        decreases vs@.len() - j,
    {
        let ghost before = out@;
        push_indent(out, config_indent(level));
        push_key(out, key, true);
        let ghost mid = out@;
        assert(mid =~= before + spaces(config_indent_of(level as nat)) + config_key(key@));
        proof {
            assert(decreases_to!(*vs => vs@[j as int]));
        }
        let v: &Object = &vs[j];
        match &v.value {
            Value::Object(_) | Value::Array(_) => {
                out.push(' ');
                emit_config_value(out, v, level);
                out.push('\n');
                assert(out@ =~= mid + (seq![' '] + config_text(*v, level as nat) + seq!['\n']));
            },
            leaf => {
                push_lit(out, " = ");
                push_leaf(out, leaf, Emitter::Config);
                push_lit(out, ";\n");
                proof {
                    reveal_strlit(" = ");
                    reveal_strlit(";\n");
                }
                assert(out@ =~= mid + (seq![' ', '=', ' '] + config_text(*v, level as nat) + seq![
                    ';',
                    '\n',
                ]));
            },
        }
        j = j + 1;
        assert(vs@[j - 1] == *v);
        assert(out@ =~= start + config_statements(key@, vs@, level as nat, j as int));
    }
}

/// Appends a value in the native syntax, as [`config_text`] says.
#[verifier::rlimit(60)]
fn emit_config_value(out: &mut Vec<char>, o: &Object, level: usize)
    ensures
        final(out)@ == old(out)@ + config_text(*o, level as nat),
    decreases o, 2nat,
{
    let ghost start = out@;
    let next = deeper(level);
    match &o.value {
        Value::Object(es) => {
            push_lit(out, "{\n");
            proof {
                reveal_strlit("{\n");
                assert(o.value->Object_0 == *es);
                assert(decreases_to!(*o => o.value));
                assert(decreases_to!(o.value => o.value->Object_0));
            }
            emit_config_entries(out, es, next);
            push_indent(out, config_indent(level));
            out.push('}');
            assert(out@ =~= start + config_text(*o, level as nat));
        },
        Value::Array(a) => {
            push_lit(out, "[\n");
            proof {
                reveal_strlit("[\n");
            }
            let ghost open = out@;
            let mut i: usize = 0;
            while i < a.len()
                invariant
                    next <= 100000,
                    next == next_level(level as nat),
                    o.value == Value::Array(*a),
                    i <= a@.len(),
                    out@ == open + config_elements(a@, next as nat, i as int),
                decreases a@.len() - i,
            {
                let ghost before = out@;
                push_indent(out, config_indent(next));
                proof {
                    assert(o.value->Array_0 == *a);
                    assert(decreases_to!(*o => o.value));
                    assert(decreases_to!(o.value => o.value->Array_0));
                    assert(decreases_to!(*a => a@[i as int]));
                }
                emit_config_value(out, &a[i], next);
                push_lit(out, ",\n");
                proof {
                    reveal_strlit(",\n");
                }
                i = i + 1;
                assert(out@ =~= open + config_elements(a@, next as nat, i as int));
            }
            push_indent(out, config_indent(level));
            out.push(']');
            assert(out@ =~= start + config_text(*o, level as nat));
        },
        leaf => {
            push_leaf(out, leaf, Emitter::Config);
        },
    }
}

/// The indentation of nesting `level` in the native syntax: four spaces a
/// level.
fn config_indent(level: usize) -> (r: usize)
    ensures
        r == config_indent_of(level as nat),
{
    if level < 100000 {
        level * 4
    } else {
        400000
    }
}

/// The YAML-like lines for the first `n` entries of an object at `level`:
/// `key:` then the value; a chain of several values as a sequence below.
pub open spec fn yaml_entries(es: Seq<Entry>, level: nat, n: int) -> Seq<char>
    decreases es, 1int, n,
{
    if n <= 0 || n > es.len() {
        Seq::empty()
    } else {
        let vs = es[n - 1].values@;
        yaml_entries(es, level, n - 1) + spaces(indent_of(level, Emitter::YAML)) + config_key(
            es[n - 1].key@,
        ) + seq![':'] + if vs.len() == 1 {
            yaml_after(vs[0], level)
        } else {
            seq!['\n'] + yaml_items(vs, next_level(level), vs.len() as int)
        }
    }
}

/// The first `n` items of a sequence at `level`, each `-` then the value.
pub open spec fn yaml_items(vs: Seq<Object>, level: nat, n: int) -> Seq<char>
    decreases vs, 1int, n,
{
    if n <= 0 || n > vs.len() {
        Seq::empty()
    } else {
        yaml_items(vs, level, n - 1) + spaces(indent_of(level, Emitter::YAML)) + seq!['-']
            + yaml_after(vs[n - 1], level)
    }
}

/// A value after a key or an item marker: a leaf on the same line, an empty
/// container as `{}` or `[]`, else the entries or items on the lines below.
pub open spec fn yaml_after(o: Object, level: nat) -> Seq<char>
    decreases o, 0int, 0int,
{
    match o.value {
        Value::Object(es) => if es@.len() == 0 {
            seq![' ', '{', '}', '\n']
        } else {
            seq!['\n'] + yaml_entries(es@, next_level(level), es@.len() as int)
        },
        Value::Array(a) => if a@.len() == 0 {
            seq![' ', '[', ']', '\n']
        } else {
            seq!['\n'] + yaml_items(a@, next_level(level), a@.len() as int)
        },
        _ => match leaf_text(o.value, Emitter::YAML) {
            Some(t) => seq![' '] + t + seq!['\n'],
            None => Seq::empty(),
        },
    }
}

/// Appends the entries of an object in the YAML-like form at `level`.
#[verifier::rlimit(60)]
fn emit_yaml_entries(out: &mut Vec<char>, es: &Vec<Entry>, level: usize)
    ensures
        final(out)@ == old(out)@ + yaml_entries(es@, level as nat, es@.len() as int),
    decreases es, 0nat,
{
    let ghost start = out@;
    let next = deeper(level);
    let mut i: usize = 0;
    while i < es.len()
        invariant
            next <= 100000,
            next == next_level(level as nat),
            i <= es@.len(),
            out@ == start + yaml_entries(es@, level as nat, i as int),
        decreases es@.len() - i,
    {
        let e: &Entry = &es[i];
        proof {
            assert(decreases_to!(*es => es@[i as int]));
            assert(decreases_to!(es@[i as int] => es@[i as int].values));
        }
        push_indent(out, level_indent(level, Emitter::YAML));
        push_key(out, &e.key, true);
        out.push(':');
        let ghost mid = out@;
        if e.values.len() == 1 {
            proof {
                assert(decreases_to!(e.values => e.values@[0]));
            }
            emit_yaml_after(out, &e.values[0], level);
        } else {
            out.push('\n');
            emit_yaml_items(out, &e.values, next);
            assert(out@ =~= mid + (seq!['\n'] + yaml_items(
                e.values@,
                next as nat,
                e.values@.len() as int,
            )));
        }
        i = i + 1;
        assert(es@[i - 1] == *e);
        assert(out@ =~= start + yaml_entries(es@, level as nat, i as int));
    }
}

/// Appends the elements of a sequence in the YAML-like form, one `- `
/// item a line.
fn emit_yaml_items(out: &mut Vec<char>, vs: &Vec<Object>, level: usize)
    ensures
        final(out)@ == old(out)@ + yaml_items(vs@, level as nat, vs@.len() as int),
    decreases vs, 1nat,
{
    let ghost start = out@;
    let mut j: usize = 0;
    while j < vs.len()
        invariant
            j <= vs@.len(),
            out@ == start + yaml_items(vs@, level as nat, j as int),
        decreases vs@.len() - j,
    {
        push_indent(out, level_indent(level, Emitter::YAML));
        out.push('-');
        proof {
            assert(decreases_to!(*vs => vs@[j as int]));
        }
        emit_yaml_after(out, &vs[j], level);
        j = j + 1;
        assert(out@ =~= start + yaml_items(vs@, level as nat, j as int));
    }
}

/// Appends a value that follows a key or an item marker, as [`yaml_after`]
/// says.
fn emit_yaml_after(out: &mut Vec<char>, o: &Object, level: usize)
    ensures
        final(out)@ == old(out)@ + yaml_after(*o, level as nat),
    decreases o, 2nat,
{
    let ghost start = out@;
    let next = deeper(level);
    match &o.value {
        Value::Object(es) => {
            if es.len() == 0 {
                push_lit(out, " {}\n");
                proof {
                    reveal_strlit(" {}\n");
                }
                assert(out@ =~= start + yaml_after(*o, level as nat));
            } else {
                out.push('\n');
                proof {
                    assert(o.value->Object_0 == *es);
                    assert(decreases_to!(*o => o.value));
                    assert(decreases_to!(o.value => o.value->Object_0));
                }
                emit_yaml_entries(out, es, next);
                assert(out@ =~= start + yaml_after(*o, level as nat));
            }
        },
        Value::Array(a) => {
            if a.len() == 0 {
                push_lit(out, " []\n");
                proof {
                    reveal_strlit(" []\n");
                }
                assert(out@ =~= start + yaml_after(*o, level as nat));
            } else {
                out.push('\n');
                proof {
                    assert(o.value->Array_0 == *a);
                    assert(decreases_to!(*o => o.value));
                    assert(decreases_to!(o.value => o.value->Array_0));
                }
                emit_yaml_items(out, a, next);
                assert(out@ =~= start + yaml_after(*o, level as nat));
            }
        },
        leaf => {
            out.push(' ');
            push_leaf(out, leaf, Emitter::YAML);
            out.push('\n');
            assert(out@ =~= start + yaml_after(*o, level as nat));
        },
    }
}

impl Emitter {
    /// Renders `obj` in this format. A leaf is written as [`leaf_text`]
    /// says, JSON as [`json_text`] says, the native syntax as
    /// [`config_text`] says and the YAML-like form as [`yaml_after`] says;
    /// the native and YAML-like forms write the entries of a top object
    /// without surrounding braces.
    pub fn emit(&self, obj: &Object) -> (r: Option<String>)
        ensures
            r is Some,
            leaf_text(obj.value, *self) matches Some(t) ==> r matches Some(x) && x@ == t,
            *self == Emitter::JSON || *self == Emitter::JSONCompact ==> (r matches Some(x) && x@
                == json_text(*obj, *self, 0)),
            *self == Emitter::Config ==> (r matches Some(x) && x@ == match obj.value {
                Value::Object(es) => config_entries(es@, 0, es@.len() as int),
                _ => config_text(*obj, 0),
            }),
            *self == Emitter::YAML ==> (r matches Some(x) && x@ == match obj.value {
                Value::Object(es) => yaml_entries(es@, 0, es@.len() as int),
                Value::Array(a) => yaml_items(a@, 0, a@.len() as int),
                _ => leaf_text(obj.value, Emitter::YAML)->0,
            }),
    {
        let mut out: Vec<char> = Vec::new();
        match (self, &obj.value) {
            (Emitter::Config, Value::Object(es)) => {
                emit_config_entries(&mut out, es, 0);
            },
            (Emitter::YAML, Value::Object(es)) => {
                emit_yaml_entries(&mut out, es, 0);
            },
            (Emitter::YAML, Value::Array(a)) => {
                emit_yaml_items(&mut out, a, 0);
            },
            (Emitter::Config, _) => {
                emit_config_value(&mut out, obj, 0);
            },
            (Emitter::YAML, leaf) => {
                push_leaf(&mut out, leaf, Emitter::YAML);
            },
            _ => {
                emit_json(&mut out, obj, *self, 0);
            },
        }
        Some(string_of(&out))
    }
}

/// Output formats as numbered codes, JSON first and YAML last.
#[derive(Debug, PartialEq, Eq, Copy, Clone, Structural)]
#[allow(non_camel_case_types)]
pub enum ucl_emitter {
    UCL_EMIT_JSON,
    UCL_EMIT_JSON_COMPACT,
    UCL_EMIT_CONFIG,
    UCL_EMIT_YAML,
}

/// The format that a numbered code names.
pub open spec fn emitter_of_code(raw: ucl_emitter) -> Emitter {
    match raw {
        ucl_emitter::UCL_EMIT_JSON => Emitter::JSON,
        ucl_emitter::UCL_EMIT_JSON_COMPACT => Emitter::JSONCompact,
        ucl_emitter::UCL_EMIT_CONFIG => Emitter::Config,
        ucl_emitter::UCL_EMIT_YAML => Emitter::YAML,
    }
}

/// The numbered code of a format.
pub open spec fn code_of_emitter(e: Emitter) -> ucl_emitter {
    match e {
        Emitter::JSON => ucl_emitter::UCL_EMIT_JSON,
        Emitter::JSONCompact => ucl_emitter::UCL_EMIT_JSON_COMPACT,
        Emitter::Config => ucl_emitter::UCL_EMIT_CONFIG,
        Emitter::YAML => ucl_emitter::UCL_EMIT_YAML,
    }
}

impl From<ucl_emitter> for Emitter {
    fn from(raw: ucl_emitter) -> (r: Emitter) {
        match raw {
            ucl_emitter::UCL_EMIT_JSON => Emitter::JSON,
            ucl_emitter::UCL_EMIT_JSON_COMPACT => Emitter::JSONCompact,
            ucl_emitter::UCL_EMIT_CONFIG => Emitter::Config,
            ucl_emitter::UCL_EMIT_YAML => Emitter::YAML,
        }
    }
}

impl vstd::std_specs::convert::FromSpecImpl<ucl_emitter> for Emitter {
    open spec fn obeys_from_spec() -> bool {
        true
    }

    open spec fn from_spec(raw: ucl_emitter) -> Emitter {
        emitter_of_code(raw)
    }
}

impl From<Emitter> for ucl_emitter {
    fn from(e: Emitter) -> (r: ucl_emitter) {
        match e {
            Emitter::JSON => ucl_emitter::UCL_EMIT_JSON,
            Emitter::JSONCompact => ucl_emitter::UCL_EMIT_JSON_COMPACT,
            Emitter::Config => ucl_emitter::UCL_EMIT_CONFIG,
            Emitter::YAML => ucl_emitter::UCL_EMIT_YAML,
        }
    }
}

impl vstd::std_specs::convert::FromSpecImpl<Emitter> for ucl_emitter {
    open spec fn obeys_from_spec() -> bool {
        true
    }

    open spec fn from_spec(e: Emitter) -> ucl_emitter {
        code_of_emitter(e)
    }
}

} // verus!
