//! Laws relating what the emitters write to what the lexer, the literal
//! classifier and the variable expansion read back, and the conditions
//! under which whole documents read back with their shape and values.
use vstd::prelude::*;
use crate::emitter::{config_entries, config_elements, config_key, config_statements, config_text, config_indent_of, is_bare_key, dollars_doubled, json_text, json_members, json_items, json_array, json_chain, spaces, line_end, colon_space, comma, indent_of, next_level, leaf_text, Emitter, decimal_text, escape_char, escaped, hex_char, point_form, quoted, zeros};
use crate::lexer::{code_of, char_of, escape_at, hex_run, hex_value, quoted_walk};
use crate::scalar::{
    digit_value, digits_end, digits_value, exp_end, exp_start, exp_too_large, exp_written,
    frac_end, frac_len, has_frac, int_end, is_digit, EXP_LIMIT,
    is_number, number_scalar, signed_mantissa, exponent, pow10, scalar_of, sign_len, suffix, unit_of, unit_or_one, word_is,
    Scalar,
};
use crate::text::{decimal_of, digit_char, signed_decimal_of};
use crate::types::Decimal;
use crate::object::Value;
use crate::parser::holds_scalar;
use crate::vars::{expand_from, has_unknown_from};
use crate::object::{entries_view, entries_wf, Entry, Object};
use crate::lexer::{is_terminator, is_ws, trim_end, trivia_walk, word_end};

verus! {

proof fn lemma_digit_char(d: nat)
    requires
        d < 10,
    ensures
        is_digit(digit_char(d)),
        digit_value(digit_char(d)) == d,
{
}

proof fn lemma_decimal_digits(n: nat)
    ensures
        decimal_of(n).len() > 0,
        forall|i: int| 0 <= i < decimal_of(n).len() ==> is_digit(#[trigger] decimal_of(n)[i]),
        digits_value(decimal_of(n), 0, decimal_of(n).len() as int) == n,
    decreases n,
{
    let w = decimal_of(n);
    if n < 10 {
        lemma_digit_char(n);
        assert(digits_value(w, 0, 0) == 0);
    } else {
        lemma_decimal_digits(n / 10);
        lemma_digit_char(n % 10);
        let p = decimal_of(n / 10);
        assert(w == p + seq![digit_char(n % 10)]);
        lemma_digits_value_shift(w, p, 0, 0, p.len() as int);
    }
}

/// `digits_value` reads only the characters of its range.
proof fn lemma_digits_value_shift(w: Seq<char>, v: Seq<char>, off: int, i: int, j: int)
    requires
        0 <= i <= j,
        j <= w.len(),
        j + off <= v.len(),
        i + off >= 0,
        forall|m: int| i <= m < j ==> w[m] == v[m + off],
    ensures
        digits_value(w, i, j) == digits_value(v, i + off, j + off),
    decreases j - i,
{
    if i < j {
        lemma_digits_value_shift(w, v, off, i, j - 1);
        assert(w[j - 1] == v[j - 1 + off]);
    }
}

proof fn lemma_digits_end_all(w: Seq<char>, i: int)
    requires
        0 <= i <= w.len(),
        forall|m: int| i <= m < w.len() ==> is_digit(#[trigger] w[m]),
    ensures
        digits_end(w, i) == w.len(),
    decreases w.len() - i,
{
    if i < w.len() {
        lemma_digits_end_all(w, i + 1);
    }
}

/// The decimal text of an integer, as the emitters write it, is read back
/// by the literal classifier as that integer, whatever the options.
pub proof fn lemma_int_text_round_trip(n: i64, no_time: bool)
    ensures
        scalar_of(signed_decimal_of(n as int), no_time) == Scalar::Int(n),
{
    let w = signed_decimal_of(n as int);
    let mag: nat = if n < 0 {
        (-n) as nat
    } else {
        n as nat
    };
    let d = decimal_of(mag);
    lemma_decimal_digits(mag);
    let s: int = if n < 0 {
        1
    } else {
        0
    };
    assert forall|m: int| s <= m < w.len() implies is_digit(#[trigger] w[m]) && w[m] == d[m - s] by {
        if n < 0 {
            assert(w == seq!['-'] + d);
        }
    }
    assert(w[0] == '-' || is_digit(w[0]));
    assert(sign_len(w) == s);
    lemma_digits_end_all(w, s);
    assert(int_end(w) == w.len());
    assert(!has_frac(w));
    assert(frac_end(w) == w.len());
    assert(exp_start(w) is None);
    assert(suffix(w) =~= Seq::<char>::empty());
    assert(unit_of(suffix(w)) is None);
    assert(unit_or_one(w) == (1int, 0int, false));
    assert(is_number(w));
    lemma_digits_value_shift(d, w, s, 0, d.len() as int);
    assert(digits_value(w, s, w.len() as int) == mag);
    assert(pow10(0) == 1);
    let x = digits_value(w, sign_len(w), frac_end(w));
    let f = unit_or_one(w).0;
    assert(x == mag);
    assert(f == 1);
    assert(x * f == mag) by (nonlinear_arith)
        requires
            x == mag,
            f == 1,
    ;
    if n < 0 {
        assert(w[0] == '-');
    }
    assert(signed_mantissa(w) == n as int);
    assert(exponent(w) == 0);
    assert(signed_mantissa(w) * pow10(0) == n as int);
    assert(number_scalar(w, no_time) == Scalar::Int(n));
    lemma_not_keyword(w);
}

proof fn lemma_escaped_concat(a: Seq<char>, b: Seq<char>)
    ensures
        escaped(a + b) == escaped(a) + escaped(b),
    decreases b.len(),
{
    if b.len() == 0 {
        assert(a + b =~= a);
        assert(escaped(a) + escaped(b) =~= escaped(a));
    } else {
        lemma_escaped_concat(a, b.drop_last());
        assert((a + b).drop_last() =~= a + b.drop_last());
        assert((a + b).last() == b.last());
        assert(escaped(a) + escaped(b.drop_last()) + escape_char(b.last()) =~= escaped(a) + (
        escaped(b.drop_last()) + escape_char(b.last())));
    }
}

proof fn lemma_escaped_first(s: Seq<char>)
    requires
        s.len() > 0,
    ensures
        escaped(s) == escape_char(s[0]) + escaped(s.drop_first()),
{
    let first = seq![s[0]];
    assert(s =~= first + s.drop_first());
    lemma_escaped_concat(first, s.drop_first());
    assert(first.drop_last() =~= Seq::<char>::empty());
    assert(escaped(Seq::<char>::empty()) == Seq::<char>::empty());
    assert(first.last() == s[0]);
    assert(escaped(first) =~= escape_char(s[0]));
}

proof fn lemma_hex_char(d: nat)
    requires
        d < 16,
    ensures
        hex_value(hex_char(d)) == Some(d as int),
{
}

proof fn lemma_code_unique(a: char, b: char)
    requires
        code_of(a) == code_of(b),
    ensures
        a == b,
{
}

/// Reading `t` from `p`, where the escaped form of one character `c` stands,
/// gives `c` and goes on after it.
proof fn lemma_escape_read(t: Seq<char>, p: int, c: char)
    requires
        0 <= p,
        p + escape_char(c).len() < t.len(),
        t.subrange(p, p + escape_char(c).len()) == escape_char(c),
    ensures
        quoted_walk(t, p, '"') == match quoted_walk(t, p + escape_char(c).len(), '"') {
            Some((rest, e)) => Some((seq![c] + rest, e)),
            None => None,
        },
{
    let e = escape_char(c);
    assert(forall|m: int| 0 <= m < e.len() ==> t[p + m] == #[trigger] e[m]) by {
        assert forall|m: int| 0 <= m < e.len() implies t[p + m] == #[trigger] e[m] by {
            assert(t.subrange(p, p + e.len())[m] == t[p + m]);
        }
    }
    if c != '"' && c != '\\' && c != '\n' && c != '\r' && c != '\t' && c != '\x08' && c != '\x0c'
        && (c as u32) >= 0x20 {
        assert(e == seq![c]);
        assert(e[0] == c);
        assert(t[p + 0] == e[0]);
        assert(t[p] == c);
    } else if (c as u32) < 0x20 && c != '\n' && c != '\r' && c != '\t' && c != '\x08' && c
        != '\x0c' {
        let hi = (c as u32 / 16) as nat;
        let lo = (c as u32 % 16) as nat;
        assert(t[p] == '\\');
        assert(t[p + 1] == 'u');
        assert(t[p + 2] == '0');
        assert(t[p + 3] == '0');
        assert(t[p + 4] == hex_char(hi));
        assert(t[p + 5] == hex_char(lo));
        lemma_hex_char(hi);
        lemma_hex_char(lo);
        reveal_with_fuel(hex_run, 5);
        assert(hex_run(t, p + 2, 4) == Some((hi * 16 + lo) as int));
        assert(hi * 16 + lo == c as int);
        let v = c as int;
        assert(code_of(c) == v);
        assert(code_of(char_of(v)) == v);
        lemma_code_unique(c, char_of(v));
        assert(escape_at(t, p + 1, '"') == Some((c, p + 6)));
    } else {
        assert(t[p] == '\\');
        assert(t[p + 1] == e[1]);
        assert(escape_at(t, p + 1, '"') == Some((c, p + 2)));
    }
}

pub(crate) proof fn lemma_escaped_read(t: Seq<char>, p: int, s: Seq<char>)
    requires
        0 <= p,
        p + escaped(s).len() < t.len(),
        t.subrange(p, p + escaped(s).len()) == escaped(s),
        t[p + escaped(s).len()] == '"',
    ensures
        quoted_walk(t, p, '"') == Some((s, p + escaped(s).len() + 1)),
    decreases s.len(),
{
    if s.len() == 0 {
        assert(escaped(s).len() == 0);
    } else {
        lemma_escaped_first(s);
        let e = escape_char(s[0]);
        let r = escaped(s.drop_first());
        assert(escaped(s) == e + r);
        assert(t.subrange(p, p + e.len()) =~= e) by {
            assert(t.subrange(p, p + e.len()) =~= t.subrange(p, p + escaped(s).len()).subrange(
                0,
                e.len() as int,
            ));
        }
        assert(t.subrange(p + e.len(), p + e.len() + r.len()) =~= r) by {
            assert(t.subrange(p + e.len(), p + e.len() + r.len()) =~= t.subrange(
                p,
                p + escaped(s).len(),
            ).subrange(e.len() as int, escaped(s).len() as int));
        }
        lemma_escaped_read(t, p + e.len(), s.drop_first());
        lemma_escape_read(t, p, s[0]);
        assert(seq![s[0]] + s.drop_first() =~= s);
    }
}

/// A string as the emitters write it, quoted and escaped, is read back by
/// the lexer as the same text, whatever follows it.
pub proof fn lemma_quoted_round_trip(s: Seq<char>, rest: Seq<char>)
    ensures
        quoted_walk(quoted(s) + rest, 1, '"') == Some((s, quoted(s).len() as int)),
{
    let t = quoted(s) + rest;
    let n = escaped(s).len() as int;
    assert(t.subrange(1, 1 + n) =~= escaped(s));
    assert(t[1 + n] == '"');
    lemma_escaped_read(t, 1, s);
}

proof fn lemma_digits_end_at(w: Seq<char>, i: int, j: int)
    requires
        0 <= i <= j <= w.len(),
        forall|m: int| i <= m < j ==> is_digit(#[trigger] w[m]),
        j == w.len() || !is_digit(w[j]),
    ensures
        digits_end(w, i) == j,
    decreases j - i,
{
    if i < j {
        lemma_digits_end_at(w, i + 1, j);
    }
}

proof fn lemma_zeros_value(z: Seq<char>, n: int)
    requires
        0 <= n <= z.len(),
        forall|m: int| 0 <= m < z.len() ==> #[trigger] z[m] == '0',
    ensures
        digits_value(z, 0, n) == 0,
    decreases n,
{
    if n > 0 {
        lemma_zeros_value(z, n - 1);
    }
}

/// Leading zeros do not change the value of digits.
proof fn lemma_leading_zeros(z: Seq<char>, d: Seq<char>, j: int)
    requires
        0 <= j <= d.len(),
        forall|m: int| 0 <= m < z.len() ==> #[trigger] z[m] == '0',
        forall|m: int| 0 <= m < d.len() ==> is_digit(#[trigger] d[m]),
    ensures
        digits_value(z + d, 0, z.len() + j) == digits_value(d, 0, j),
    decreases j,
{
    let w = z + d;
    if j == 0 {
        lemma_digits_value_shift(w, z, 0, 0, z.len() as int);
        lemma_zeros_value(z, z.len() as int);
    } else {
        lemma_leading_zeros(z, d, j - 1);
        assert(w[z.len() + j - 1] == d[j - 1]);
    }
}

/// A point among digits does not change their value.
proof fn lemma_point_value(w: Seq<char>, s: int, a: int, padded: Seq<char>, k: int)
    requires
        0 <= s,
        0 <= a <= padded.len(),
        0 <= k <= padded.len() - a,
        s + padded.len() + 1 <= w.len(),
        forall|m: int| 0 <= m < padded.len() ==> is_digit(#[trigger] padded[m]),
        forall|m: int| 0 <= m < a ==> #[trigger] w[s + m] == padded[m],
        w[s + a] == '.',
        forall|m: int| a <= m < padded.len() ==> #[trigger] w[s + m + 1] == padded[m],
    ensures
        digits_value(w, s, s + a + 1 + k) == digits_value(padded, 0, a + k),
    decreases k,
{
    if k == 0 {
        assert forall|m: int| s <= m < s + a implies w[m] == padded[m + (-s)] by {
            assert(w[s + (m - s)] == padded[m - s]);
        }
        lemma_digits_value_shift(w, padded, -s, s, s + a);
    } else {
        lemma_point_value(w, s, a, padded, k - 1);
        assert(w[s + (a + k - 1) + 1] == padded[a + k - 1]);
        assert(is_digit(padded[a + k - 1]));
    }
}

proof fn lemma_not_keyword(w: Seq<char>)
    requires
        w.len() > 0,
        w[0] == '-' || is_digit(w[0]),
    ensures
        !word_is(w, seq!['t', 'r', 'u', 'e']),
        !word_is(w, seq!['y', 'e', 's']),
        !word_is(w, seq!['o', 'n']),
        !word_is(w, seq!['f', 'a', 'l', 's', 'e']),
        !word_is(w, seq!['n', 'o']),
        !word_is(w, seq!['o', 'f', 'f']),
        !word_is(w, seq!['n', 'u', 'l', 'l']),
{
    assert(!word_is(w, seq!['t', 'r', 'u', 'e'])) by {
        if w.len() == 4 {
            assert(w[0] != 't');
        }
    }
    assert(!word_is(w, seq!['y', 'e', 's'])) by {
        if w.len() == 3 {
            assert(w[0] != 'y');
        }
    }
    assert(!word_is(w, seq!['o', 'n'])) by {
        if w.len() == 2 {
            assert(w[0] != 'o');
        }
    }
    assert(!word_is(w, seq!['f', 'a', 'l', 's', 'e'])) by {
        if w.len() == 5 {
            assert(w[0] != 'f');
        }
    }
    assert(!word_is(w, seq!['n', 'o'])) by {
        if w.len() == 2 {
            assert(w[0] != 'n');
        }
    }
    assert(!word_is(w, seq!['o', 'f', 'f'])) by {
        if w.len() == 3 {
            assert(w[0] != 'o');
        }
    }
    assert(!word_is(w, seq!['n', 'u', 'l', 'l'])) by {
        if w.len() == 4 {
            assert(w[0] != 'n');
        }
    }
}

/// What the decimal text of `d` followed by the unit `u` (none, or `s`)
/// reads back as: a time when the unit is there and times are read, else a
/// float.
pub open spec fn read_back(d: Decimal, u: Seq<char>, no_time: bool) -> Scalar {
    if u.len() > 0 && !no_time {
        Scalar::Time(d)
    } else {
        Scalar::Float(d)
    }
}

proof fn lemma_unit_suffix(w: Seq<char>, u: Seq<char>)
    requires
        u == Seq::<char>::empty() || u == seq!['s'],
        suffix(w) == u,
    ensures
        unit_or_one(w) == (if u.len() > 0 {
            (1int, 0int, true)
        } else {
            (1int, 0int, false)
        }),
        suffix(w).len() == 0 || unit_of(suffix(w)) is Some,
{
    if u.len() > 0 {
        assert(u[0] == 's');
    }
}

proof fn lemma_exponent_form(d: Decimal, u: Seq<char>, no_time: bool)
    requires
        0 <= d.exponent <= EXP_LIMIT,
        u == Seq::<char>::empty() || u == seq!['s'],
    ensures
        scalar_of(decimal_text(d) + u, no_time) == read_back(d, u, no_time),
{
    let t0 = decimal_text(d);
    let w = t0 + u;
    let len = t0.len() as int;
    let mag: nat = if d.mantissa < 0 {
        (-d.mantissa) as nat
    } else {
        d.mantissa as nat
    };
    let digits = decimal_of(mag);
    lemma_decimal_digits(mag);
    let sign = if d.mantissa < 0 {
        seq!['-']
    } else {
        Seq::<char>::empty()
    };
    let s = sign.len() as int;
    let e = d.exponent as nat;
    let ed = decimal_of(e);
    lemma_decimal_digits(e);
    assert(t0 == sign + digits + seq!['e'] + ed);
    assert(w == sign + digits + seq!['e'] + ed + u);
    let a = s + digits.len();
    assert forall|m: int| s <= m < a implies is_digit(#[trigger] w[m]) && w[m] == digits[m
        - s] by {}
    assert forall|m: int| a + 1 <= m < len implies is_digit(#[trigger] w[m]) && w[m]
        == ed[m - a - 1] by {}
    assert(w[a] == 'e');
    assert(sign_len(w) == s) by {
        if s == 0 {
            assert(is_digit(w[0]));
        }
    }
    lemma_digits_end_at(w, s, a);
    assert(int_end(w) == a);
    assert(!has_frac(w));
    assert(frac_end(w) == a);
    assert(is_digit(w[a + 1]));
    assert(exp_start(w) == Some(a + 1));
    if u.len() > 0 {
        assert(w[len] == 's');
    }
    lemma_digits_end_at(w, a + 1, len);
    assert(exp_end(w) == len);
    assert(suffix(w) =~= u);
    lemma_unit_suffix(w, u);
    assert(is_number(w));
    lemma_digits_value_shift(ed, w, a + 1, 0, ed.len() as int);
    assert(exp_written(w) == e);
    assert(!exp_too_large(w));
    assert(frac_len(w) == 0);
    assert(exponent(w) == e);
    lemma_digits_value_shift(digits, w, s, 0, digits.len() as int);
    let x = digits_value(w, sign_len(w), frac_end(w));
    let f = unit_or_one(w).0;
    assert(x == mag);
    assert(x * f == mag) by (nonlinear_arith)
        requires
            x == mag,
            f == 1,
    ;
    if d.mantissa < 0 {
        assert(w[0] == '-');
    }
    assert(signed_mantissa(w) == d.mantissa);
    lemma_not_keyword(w);
    assert(number_scalar(w, no_time) == read_back(d, u, no_time));
}

#[verifier::rlimit(50)]
proof fn lemma_point_form_read(d: Decimal, u: Seq<char>, no_time: bool)
    requires
        d.exponent < 0,
        u == Seq::<char>::empty() || u == seq!['s'],
    ensures
        scalar_of(decimal_text(d) + u, no_time) == read_back(d, u, no_time),
{
    let t0 = decimal_text(d);
    let w = t0 + u;
    let len = t0.len() as int;
    let mag: nat = if d.mantissa < 0 {
        (-d.mantissa) as nat
    } else {
        d.mantissa as nat
    };
    let digits = decimal_of(mag);
    lemma_decimal_digits(mag);
    let sign = if d.mantissa < 0 {
        seq!['-']
    } else {
        Seq::<char>::empty()
    };
    let s = sign.len() as int;
    let places = (-d.exponent) as nat;
    let pf = point_form(digits, places);
    assert(t0 == sign + pf);
    assert(w == sign + pf + u);
    let padded = if digits.len() <= places {
        zeros((places + 1 - digits.len()) as nat) + digits
    } else {
        digits
    };
    let plen = padded.len() as int;
    let a = plen - places;
    assert(a >= 1);
    assert(pf == padded.subrange(0, a) + seq!['.'] + padded.subrange(a, plen));
    assert forall|m: int| 0 <= m < plen implies is_digit(#[trigger] padded[m]) by {
        if digits.len() <= places {
            let z = zeros((places + 1 - digits.len()) as nat);
            if m >= z.len() {
                assert(padded[m] == digits[m - z.len()]);
            }
        }
    }
    assert(forall|m: int| 0 <= m < a ==> #[trigger] w[s + m] == padded[m]);
    assert(w[s + a] == '.');
    assert(forall|m: int| a <= m < plen ==> #[trigger] w[s + m + 1] == padded[m]);
    assert(len == s + plen + 1);
    assert forall|m: int| s <= m < s + a implies is_digit(#[trigger] w[m]) by {
        assert(w[s + (m - s)] == padded[m - s]);
    }
    assert forall|m: int| s + a + 1 <= m < len implies is_digit(#[trigger] w[m]) by {
        assert(w[s + (m - s - 1) + 1] == padded[m - s - 1]);
    }
    assert(sign_len(w) == s) by {
        if s == 0 {
            assert(w[s + 0] == padded[0]);
            assert(is_digit(w[0]));
        }
    }
    lemma_digits_end_at(w, s, s + a);
    assert(int_end(w) == s + a);
    assert(w[s + a + 1] == padded[a]);
    assert(has_frac(w));
    if u.len() > 0 {
        assert(w[len] == 's');
    }
    lemma_digits_end_at(w, s + a + 1, len);
    assert(frac_end(w) == len);
    assert(frac_len(w) == places);
    assert(exp_start(w) is None);
    assert(suffix(w) =~= u);
    lemma_unit_suffix(w, u);
    assert(is_number(w));
    lemma_point_value(w, s, a, padded, places as int);
    if digits.len() <= places {
        let z = zeros((places + 1 - digits.len()) as nat);
        lemma_leading_zeros(z, digits, digits.len() as int);
    }
    assert(digits_value(padded, 0, plen) == mag);
    let x = digits_value(w, sign_len(w), frac_end(w));
    let f = unit_or_one(w).0;
    assert(x == mag);
    assert(x * f == mag) by (nonlinear_arith)
        requires
            x == mag,
            f == 1,
    ;
    if d.mantissa < 0 {
        assert(w[0] == '-');
    }
    assert(signed_mantissa(w) == d.mantissa);
    assert(exponent(w) == d.exponent);
    lemma_not_keyword(w);
    assert(number_scalar(w, no_time) == read_back(d, u, no_time));
}

/// The decimal text of a float, as the emitters write it, is read back by
/// the literal classifier as the same decimal, for every exponent up to the
/// largest the classifier accepts.
pub proof fn lemma_decimal_text_round_trip(d: Decimal, no_time: bool)
    requires
        d.exponent <= EXP_LIMIT,
    ensures
        scalar_of(decimal_text(d), no_time) == Scalar::Float(d),
{
    let u = Seq::<char>::empty();
    assert(decimal_text(d) + u =~= decimal_text(d));
    if d.exponent >= 0 {
        lemma_exponent_form(d, u, no_time);
    } else {
        lemma_point_form_read(d, u, no_time);
    }
}

/// The text of a duration in the native syntax, its decimal number of
/// seconds followed by `s`, is read back as that duration, or as a float of
/// seconds when times are not read, for every exponent up to the largest
/// the classifier accepts.
pub proof fn lemma_duration_text_round_trip(d: Decimal, no_time: bool)
    requires
        d.exponent <= EXP_LIMIT,
    ensures
        scalar_of(decimal_text(d) + seq!['s'], no_time) == if no_time {
            Scalar::Float(d)
        } else {
            Scalar::Time(d)
        },
{
    if d.exponent >= 0 {
        lemma_exponent_form(d, seq!['s'], no_time);
    } else {
        lemma_point_form_read(d, seq!['s'], no_time);
    }
}

/// Every leaf that the emitters write as a bare word (an integer, a float
/// whose exponent the classifier accepts, a boolean, null) is read back as
/// the same value, in every format and under every option; so is a
/// duration written in the native syntax, when times are read.
pub proof fn lemma_leaf_round_trip(v: Value, fmt: Emitter, no_time: bool)
    requires
        v is Int || v is Float || v is Boolean || v is Null || (v is Time && fmt == Emitter::Config
            && !no_time),
        v matches Value::Float(d) ==> d.exponent <= EXP_LIMIT,
        v matches Value::Time(d) ==> d.exponent <= EXP_LIMIT,
    ensures
        leaf_text(v, fmt) matches Some(t) && holds_scalar(v, scalar_of(t, no_time), t),
{
    match v {
        Value::Int(n) => {
            lemma_int_text_round_trip(n, no_time);
        },
        Value::Float(d) => {
            lemma_decimal_text_round_trip(d, no_time);
        },
        Value::Time(d) => {
            lemma_duration_text_round_trip(d, no_time);
        },
        Value::Boolean(b) => {
            let t = leaf_text(v, fmt)->0;
            if b {
                assert(word_is(t, seq!['t', 'r', 'u', 'e']));
            } else {
                assert(!word_is(t, seq!['t', 'r', 'u', 'e']));
                assert(!word_is(t, seq!['y', 'e', 's']));
                assert(!word_is(t, seq!['o', 'n']));
                assert(word_is(t, seq!['f', 'a', 'l', 's', 'e']));
            }
        },
        _ => {
            let t = leaf_text(v, fmt)->0;
            assert(!word_is(t, seq!['t', 'r', 'u', 'e']) && !word_is(t, seq!['y', 'e', 's'])
                && !word_is(t, seq!['o', 'n']));
            assert(!word_is(t, seq!['f', 'a', 'l', 's', 'e']) && !word_is(t, seq!['n', 'o'])
                && !word_is(t, seq!['o', 'f', 'f']));
            assert(word_is(t, seq!['n', 'u', 'l', 'l']));
        },
    }
}

proof fn lemma_doubled_concat(a: Seq<char>, b: Seq<char>)
    ensures
        dollars_doubled(a + b) == dollars_doubled(a) + dollars_doubled(b),
    decreases b.len(),
{
    if b.len() == 0 {
        assert(a + b =~= a);
        assert(dollars_doubled(a) + dollars_doubled(b) =~= dollars_doubled(a));
    } else {
        lemma_doubled_concat(a, b.drop_last());
        assert((a + b).drop_last() =~= a + b.drop_last());
        assert((a + b).last() == b.last());
        let piece = if b.last() == '$' {
            seq!['$', '$']
        } else {
            seq![b.last()]
        };
        assert(dollars_doubled(a) + dollars_doubled(b.drop_last()) + piece =~= dollars_doubled(a) + (
        dollars_doubled(b.drop_last()) + piece));
    }
}

/// Expanding text whose every `$` is doubled, from `i` on, gives back `s`,
/// whatever variables are registered.
pub(crate) proof fn lemma_expand_doubled(t: Seq<char>, vs: Seq<(Seq<char>, Seq<char>)>, i: int, s: Seq<char>)
    requires
        0 <= i <= t.len(),
        t.subrange(i, t.len() as int) == dollars_doubled(s),
    ensures
        expand_from(t, vs, i) == s,
        !has_unknown_from(t, vs, i),
    decreases s.len(),
{
    if s.len() == 0 {
        assert(t.subrange(i, t.len() as int).len() == 0);
    } else {
        let first = seq![s[0]];
        assert(s =~= first + s.drop_first());
        lemma_doubled_concat(first, s.drop_first());
        assert(first.drop_last() =~= Seq::<char>::empty());
        assert(dollars_doubled(Seq::<char>::empty()) == Seq::<char>::empty());
        assert(first.last() == s[0]);
        let rest = dollars_doubled(s.drop_first());
        let sub = t.subrange(i, t.len() as int);
        assert(sub == dollars_doubled(first) + rest);
        if s[0] == '$' {
            assert(dollars_doubled(first) =~= seq!['$', '$']);
            assert(sub.len() >= 2);
            assert(t[i] == t.subrange(i, t.len() as int)[0]);
            assert(t[i + 1] == t.subrange(i, t.len() as int)[1]);
            assert(t.subrange(i + 2, t.len() as int) =~= t.subrange(i, t.len() as int).subrange(
                2,
                t.len() - i,
            ));
            assert(sub.subrange(2, t.len() - i) =~= rest);
            lemma_expand_doubled(t, vs, i + 2, s.drop_first());
        } else {
            assert(dollars_doubled(first) =~= seq![s[0]]);
            assert(sub.len() >= 1);
            assert(t[i] == t.subrange(i, t.len() as int)[0]);
            assert(t.subrange(i + 1, t.len() as int) =~= t.subrange(i, t.len() as int).subrange(
                1,
                t.len() - i,
            ));
            assert(sub.subrange(1, t.len() - i) =~= rest);
            lemma_expand_doubled(t, vs, i + 1, s.drop_first());
        }
    }
}

/// A string as the native syntax writes it is read back by the lexer and
/// the variable expansion as the same text, whatever follows it and
/// whatever variables are registered.
pub proof fn lemma_config_string_round_trip(
    s: Seq<char>,
    rest: Seq<char>,
    vs: Seq<(Seq<char>, Seq<char>)>,
)
    ensures
        quoted_walk(quoted(dollars_doubled(s)) + rest, 1, '"') matches Some((t, e)) && e
            == quoted(dollars_doubled(s)).len() && expand_from(t, vs, 0) == s,
{
    let d = dollars_doubled(s);
    lemma_quoted_round_trip(d, rest);
    assert(d.subrange(0, d.len() as int) =~= d);
    lemma_expand_doubled(d, vs, 0, s);
}

/// Whether no character of `s` is `$`.
pub open spec fn no_dollar(s: Seq<char>) -> bool {
    forall|i: int| 0 <= i < s.len() ==> s[i] != '$'
}

/// Whether `o` goes through JSON and back unchanged with `room`
/// levels of nesting left: objects with unique keys and chains of one
/// value, arrays, integers, floats whose exponent the classifier accepts,
/// strings without `$`, booleans and null.
pub open spec fn json_safe(o: Object, room: nat) -> bool
    decreases o, 0int, 0int,
{
    match o.value {
        Value::Object(es) => room > 0 && entries_wf(entries_view(es@)) && members_safe(
            es@,
            (room - 1) as nat,
            es@.len() as int,
        ),
        Value::Array(a) => room > 0 && items_safe(a@, (room - 1) as nat, a@.len() as int),
        Value::Int(_) => true,
        Value::Float(d) => d.exponent <= EXP_LIMIT,
        Value::String(s) => no_dollar(s@),
        Value::Boolean(_) => true,
        Value::Null => true,
        _ => false,
    }
}

/// Whether each of the first `n` entries has a chain of one safe value.
pub open spec fn members_safe(es: Seq<Entry>, room: nat, n: int) -> bool
    decreases es, 1int, n,
{
    if n <= 0 || n > es.len() {
        n <= 0
    } else {
        members_safe(es, room, n - 1) && es[n - 1].values@.len() == 1 && json_safe(
            es[n - 1].values@[0],
            room,
        )
    }
}

/// Whether each of the first `n` nodes is safe.
pub open spec fn items_safe(a: Seq<Object>, room: nat, n: int) -> bool
    decreases a, 1int, n,
{
    if n <= 0 || n > a.len() {
        n <= 0
    } else {
        items_safe(a, room, n - 1) && json_safe(a[n - 1], room)
    }
}

/// Whether `b` has the shape and values of `a`, keys of nodes and
/// priorities aside.
pub open spec fn same_shape(a: Object, b: Object) -> bool
    decreases a, 0int, 0int,
{
    match (a.value, b.value) {
        (Value::Object(x), Value::Object(y)) => x@.len() == y@.len() && shape_entries(
            x@,
            y@,
            x@.len() as int,
        ),
        (Value::Array(x), Value::Array(y)) => x@.len() == y@.len() && shape_items(
            x@,
            y@,
            x@.len() as int,
        ),
        (Value::Int(x), Value::Int(y)) => x == y,
        (Value::Float(x), Value::Float(y)) => x == y,
        (Value::String(x), Value::String(y)) => x@ == y@,
        (Value::Boolean(x), Value::Boolean(y)) => x == y,
        (Value::Null, Value::Null) => true,
        (Value::Time(x), Value::Time(y)) => x == y,
        _ => false,
    }
}

/// Whether the first `n` entries of `y` have the keys and shapes of those
/// of `x`.
pub open spec fn shape_entries(x: Seq<Entry>, y: Seq<Entry>, n: int) -> bool
    decreases x, 1int, n,
{
    if n <= 0 || n > x.len() || n > y.len() {
        n <= 0
    } else {
        &&& shape_entries(x, y, n - 1)
        &&& x[n - 1].key@ == y[n - 1].key@
        &&& x[n - 1].values@.len() == y[n - 1].values@.len()
        &&& shape_items(x[n - 1].values@, y[n - 1].values@, x[n - 1].values@.len() as int)
    }
}

/// Whether the first `n` nodes of `y` have the shapes of those of `x`.
pub open spec fn shape_items(x: Seq<Object>, y: Seq<Object>, n: int) -> bool
    decreases x, 1int, n,
{
    if n <= 0 || n > x.len() || n > y.len() {
        n <= 0
    } else {
        shape_items(x, y, n - 1) && same_shape(x[n - 1], y[n - 1])
    }
}

/// Characters of the leaf texts that stand as bare words.
pub open spec fn is_plain(c: char) -> bool {
    ('0' <= c && c <= '9') || c == '-' || c == '.' || ('a' <= c && c <= 'z')
}

/// Expanding text without `$` changes nothing and finds no unknown
/// reference.
pub(crate) proof fn lemma_no_dollar_expand(t: Seq<char>, vs: Seq<(Seq<char>, Seq<char>)>, i: int)
    requires
        0 <= i <= t.len(),
        no_dollar(t),
    ensures
        expand_from(t, vs, i) == t.subrange(i, t.len() as int),
        !has_unknown_from(t, vs, i),
    decreases t.len() - i,
{
    if i < t.len() {
        lemma_no_dollar_expand(t, vs, i + 1);
        assert(seq![t[i]] + t.subrange(i + 1, t.len() as int) =~= t.subrange(i, t.len() as int));
    } else {
        assert(t.subrange(i, t.len() as int) =~= Seq::<char>::empty());
    }
}

proof fn lemma_decimal_plain(n: nat)
    ensures
        forall|i: int| 0 <= i < decimal_of(n).len() ==> is_plain(#[trigger] decimal_of(n)[i]),
{
    lemma_decimal_digits(n);
}

/// Every character of the text of a bare leaf is plain, and so is its
/// first, which is a digit, `-` or a letter.
pub(crate) proof fn lemma_leaf_plain(v: Value, fmt: Emitter)
    requires
        v is Int || v is Float || v is Boolean || v is Null,
    ensures
        leaf_text(v, fmt) matches Some(t) && t.len() > 0 && (forall|i: int|
            0 <= i < t.len() ==> is_plain(#[trigger] t[i])) && t[0] != '.',
{
    match v {
        Value::Int(n) => {
            let mag: nat = if n < 0 {
                (-n) as nat
            } else {
                n as nat
            };
            lemma_decimal_digits(mag);
            let t = signed_decimal_of(n as int);
            if n < 0 {
                assert(t == seq!['-'] + decimal_of(mag));
            }
            assert forall|i: int| 0 <= i < t.len() implies is_plain(#[trigger] t[i]) by {
                if n < 0 && i > 0 {
                    assert(t[i] == decimal_of(mag)[i - 1]);
                }
            }
        },
        Value::Float(d) => {
            let mag: nat = if d.mantissa < 0 {
                (-d.mantissa) as nat
            } else {
                d.mantissa as nat
            };
            let digits = decimal_of(mag);
            lemma_decimal_digits(mag);
            let sign = if d.mantissa < 0 {
                seq!['-']
            } else {
                Seq::<char>::empty()
            };
            let t = decimal_text(d);
            if d.exponent >= 0 {
                let ed = decimal_of(d.exponent as nat);
                lemma_decimal_digits(d.exponent as nat);
                assert(t == sign + digits + seq!['e'] + ed);
                assert forall|i: int| 0 <= i < t.len() implies is_plain(#[trigger] t[i]) by {
                    let s = sign.len() as int;
                    if s <= i < s + digits.len() {
                        assert(t[i] == digits[i - s]);
                    } else if i > s + digits.len() {
                        assert(t[i] == ed[i - s - digits.len() - 1]);
                    }
                }
                if sign.len() == 0 {
                    assert(t[0] == digits[0]);
                }
            } else {
                let places = (-d.exponent) as nat;
                let padded = if digits.len() <= places {
                    zeros((places + 1 - digits.len()) as nat) + digits
                } else {
                    digits
                };
                let plen = padded.len() as int;
                let a = plen - places;
                assert forall|m: int| 0 <= m < plen implies is_plain(#[trigger] padded[m]) by {
                    if digits.len() <= places {
                        let z = zeros((places + 1 - digits.len()) as nat);
                        if m >= z.len() {
                            assert(padded[m] == digits[m - z.len()]);
                        }
                    }
                }
                let pf = point_form(digits, places);
                assert(pf == padded.subrange(0, a) + seq!['.'] + padded.subrange(a, plen));
                assert(t == sign + pf);
                assert forall|i: int| 0 <= i < t.len() implies is_plain(#[trigger] t[i]) by {
                    let s = sign.len() as int;
                    if s <= i < s + a {
                        assert(t[i] == padded[i - s]);
                    } else if i > s + a {
                        assert(t[i] == padded[i - s - 1]);
                    }
                }
                if sign.len() == 0 {
                    assert(t[0] == padded[0]);
                }
            }
        },
        _ => {},
    }
}

/// The text of the first `i` members is the start of that of the first `j`.
pub(crate) proof fn lemma_members_prefix(es: Seq<Entry>, f: Emitter, l: nat, i: int, j: int)
    requires
        0 <= i <= j <= es.len(),
    ensures
        json_members(es, f, l, i).len() <= json_members(es, f, l, j).len(),
        json_members(es, f, l, j).subrange(0, json_members(es, f, l, i).len() as int)
            == json_members(es, f, l, i),
    decreases j - i,
{
    if i < j {
        lemma_members_prefix(es, f, l, i, j - 1);
        let a = json_members(es, f, l, i);
        let b = json_members(es, f, l, j - 1);
        let c = json_members(es, f, l, j);
        assert(c.subrange(0, b.len() as int) =~= b);
        assert(c.subrange(0, a.len() as int) =~= b.subrange(0, a.len() as int));
    } else {
        let a = json_members(es, f, l, i);
        assert(a.subrange(0, a.len() as int) =~= a);
    }
}

/// The text of the first `i` items is the start of that of the first `j`.
pub(crate) proof fn lemma_items_prefix(a: Seq<Object>, f: Emitter, l: nat, i: int, j: int)
    requires
        0 <= i <= j <= a.len(),
    ensures
        json_items(a, f, l, i).len() <= json_items(a, f, l, j).len(),
        json_items(a, f, l, j).subrange(0, json_items(a, f, l, i).len() as int)
            == json_items(a, f, l, i),
    decreases j - i,
{
    if i < j {
        lemma_items_prefix(a, f, l, i, j - 1);
        let x = json_items(a, f, l, i);
        let b = json_items(a, f, l, j - 1);
        let c = json_items(a, f, l, j);
        assert(c.subrange(0, b.len() as int) =~= b);
        assert(c.subrange(0, x.len() as int) =~= b.subrange(0, x.len() as int));
    } else {
        let x = json_items(a, f, l, i);
        assert(x.subrange(0, x.len() as int) =~= x);
    }
}

pub(crate) proof fn lemma_members_safe_at(es: Seq<Entry>, room: nat, n: int, j: int)
    requires
        members_safe(es, room, n),
        0 <= j < n,
    ensures
        es[j].values@.len() == 1,
        json_safe(es[j].values@[0], room),
    decreases n,
{
    if j < n - 1 {
        lemma_members_safe_at(es, room, n - 1, j);
    }
}

pub(crate) proof fn lemma_items_safe_at(a: Seq<Object>, room: nat, n: int, j: int)
    requires
        items_safe(a, room, n),
        0 <= j < n,
    ensures
        json_safe(a[j], room),
    decreases n,
{
    if j < n - 1 {
        lemma_items_safe_at(a, room, n - 1, j);
    }
}

/// `shape_entries` reads only the keys and chains of `y`.
pub(crate) proof fn lemma_shape_entries_views(x: Seq<Entry>, y: Seq<Entry>, z: Seq<Entry>, n: int)
    requires
        shape_entries(x, y, n),
        0 <= n <= z.len(),
        forall|j: int| 0 <= j < n ==> #[trigger] z[j].key@ == y[j].key@ && z[j].values@ == y[j].values@,
    ensures
        shape_entries(x, z, n),
    decreases n,
{
    if n > 0 {
        lemma_shape_entries_views(x, y, z, n - 1);
    }
}

pub(crate) proof fn lemma_shape_items_same(x: Seq<Object>, y: Seq<Object>, z: Seq<Object>, n: int)
    requires
        shape_items(x, y, n),
        0 <= n <= z.len(),
        forall|j: int| 0 <= j < n ==> #[trigger] z[j] == y[j],
    ensures
        shape_items(x, z, n),
    decreases n,
{
    if n > 0 {
        lemma_shape_items_same(x, y, z, n - 1);
    }
}

/// The JSON text of a safe value is not empty, and its first
/// character opens an object, an array or a string, or is plain.
pub(crate) proof fn lemma_json_first(d: Object, room: nat, l: nat, f: Emitter)
    requires
        json_safe(d, room),
    ensures
        json_text(d, f, l).len() > 0,
        ({
            let c = json_text(d, f, l)[0];
            (c == '{' && d.value is Object) || (c == '[' && d.value is Array) || (c == '"'
                && d.value is String) || (is_plain(c) && c != '.' && !(d.value is Object)
                && !(d.value is Array) && !(d.value is String))
        }),
{
    match d.value {
        Value::Object(es) => {},
        Value::Array(a) => {},
        Value::String(x) => {},
        _ => {
            lemma_leaf_plain(d.value, f);
        },
    }
}

/// Whether `o` goes through the native syntax and back unchanged with
/// `room` levels of nesting left: objects with unique keys and chains of
/// one or more values, arrays, and every leaf but user data, floats and
/// durations having an exponent the classifier accepts (durations only
/// when times are read).
pub open spec fn config_safe(o: Object, room: nat, no_time: bool) -> bool
    decreases o, 0int, 0int,
{
    match o.value {
        Value::Object(es) => room > 0 && entries_wf(entries_view(es@)) && config_members_safe(
            es@,
            (room - 1) as nat,
            no_time,
            es@.len() as int,
        ),
        Value::Array(a) => room > 0 && config_items_safe(a@, (room - 1) as nat, no_time, a@.len() as int),
        Value::Int(_) => true,
        Value::Float(d) => d.exponent <= EXP_LIMIT,
        Value::Time(d) => d.exponent <= EXP_LIMIT && !no_time,
        Value::String(_) => true,
        Value::Boolean(_) => true,
        Value::Null => true,
        Value::UserData => false,
    }
}

/// Whether each of the first `n` entries has a chain of safe values.
pub open spec fn config_members_safe(es: Seq<Entry>, room: nat, no_time: bool, n: int) -> bool
    decreases es, 1int, n,
{
    if n <= 0 || n > es.len() {
        n <= 0
    } else {
        config_members_safe(es, room, no_time, n - 1) && es[n - 1].values@.len() >= 1
            && config_items_safe(es[n - 1].values@, room, no_time, es[n - 1].values@.len() as int)
    }
}

/// Whether each of the first `n` nodes is safe.
pub open spec fn config_items_safe(a: Seq<Object>, room: nat, no_time: bool, n: int) -> bool
    decreases a, 1int, n,
{
    if n <= 0 || n > a.len() {
        n <= 0
    } else {
        config_items_safe(a, room, no_time, n - 1) && config_safe(a[n - 1], room, no_time)
    }
}

pub(crate) proof fn lemma_config_items_safe_at(a: Seq<Object>, room: nat, no_time: bool, n: int, j: int)
    requires
        config_items_safe(a, room, no_time, n),
        0 <= j < n,
    ensures
        config_safe(a[j], room, no_time),
    decreases n,
{
    if j < n - 1 {
        lemma_config_items_safe_at(a, room, no_time, n - 1, j);
    }
}

pub(crate) proof fn lemma_config_members_safe_at(es: Seq<Entry>, room: nat, no_time: bool, n: int, j: int)
    requires
        config_members_safe(es, room, no_time, n),
        0 <= j < n,
    ensures
        es[j].values@.len() >= 1,
        config_items_safe(es[j].values@, room, no_time, es[j].values@.len() as int),
    decreases n,
{
    if j < n - 1 {
        lemma_config_members_safe_at(es, room, no_time, n - 1, j);
    }
}

/// Whitespace before a token is skipped: from any position in a run of
/// whitespace the next token is the same.
pub(crate) proof fn lemma_trivia_ws(s: Seq<char>, a: int, b: int)
    requires
        0 <= a <= b <= s.len(),
        forall|m: int| a <= m < b ==> is_ws(#[trigger] s[m]),
    ensures
        trivia_walk(s, a, 0) == trivia_walk(s, b, 0),
    decreases b - a,
{
    if a < b {
        lemma_trivia_ws(s, a + 1, b);
    }
}

/// The position of the next token is where the walk stops again.
pub(crate) proof fn lemma_trivia_fixed(s: Seq<char>, a: int, mode: int)
    requires
        0 <= a <= s.len(),
        trivia_walk(s, a, mode) is Some,
    ensures
        trivia_walk(s, trivia_walk(s, a, mode)->0, 0) == trivia_walk(s, a, mode),
    decreases s.len() - a,
{
    if a < s.len() {
        if mode == -1 {
            if s[a] == '\n' {
                lemma_trivia_fixed(s, a + 1, 0);
            } else {
                lemma_trivia_fixed(s, a + 1, -1);
            }
        } else if mode > 0 {
            if s[a] == '*' && a + 1 < s.len() && s[a + 1] == '/' {
                lemma_trivia_fixed(s, a + 2, mode - 1);
            } else if s[a] == '/' && a + 1 < s.len() && s[a + 1] == '*' {
                lemma_trivia_fixed(s, a + 2, mode + 1);
            } else {
                lemma_trivia_fixed(s, a + 1, mode);
            }
        } else if is_ws(s[a]) {
            lemma_trivia_fixed(s, a + 1, 0);
        } else if s[a] == '#' {
            lemma_trivia_fixed(s, a + 1, -1);
        } else if s[a] == '/' && a + 1 < s.len() && s[a + 1] == '/' {
            lemma_trivia_fixed(s, a + 2, -1);
        } else if s[a] == '/' && a + 1 < s.len() && s[a + 1] == '*' {
            lemma_trivia_fixed(s, a + 2, 1);
        }
    }
}

/// Whether `t` stands in `s` at `pos`, followed by the end or a terminator.
pub open spec fn word_at(s: Seq<char>, pos: int, t: Seq<char>) -> bool {
    &&& 0 <= pos
    &&& pos + t.len() <= s.len()
    &&& s.subrange(pos, pos + t.len()) == t
    &&& (pos + t.len() == s.len() || is_terminator(s[pos + t.len()]))
}

pub(crate) proof fn lemma_word_of_plain_any(s: Seq<char>, i: int, j: int, key: bool)
    requires
        0 <= i <= j <= s.len(),
        forall|m: int| i <= m < j ==> is_plain(#[trigger] s[m]) || s[m] == '_' || ('A' <= s[m] && s[m] <= 'Z'),
        j == s.len() || is_terminator(s[j]) || (key && is_ws(s[j])),
        !key ==> (j == s.len() || is_terminator(s[j])),
    ensures
        word_end(s, i, key) == j,
    decreases j - i,
{
    if i < j {
        lemma_word_of_plain_any(s, i + 1, j, key);
    }
}

pub(crate) proof fn lemma_centries_prefix(es: Seq<Entry>, lv: nat, i: int, j: int)
    requires
        0 <= i <= j <= es.len(),
    ensures
        config_entries(es, lv, i).len() <= config_entries(es, lv, j).len(),
        config_entries(es, lv, j).subrange(0, config_entries(es, lv, i).len() as int)
            == config_entries(es, lv, i),
    decreases j - i,
{
    if i < j {
        lemma_centries_prefix(es, lv, i, j - 1);
        let a = config_entries(es, lv, i);
        let b = config_entries(es, lv, j - 1);
        let c = config_entries(es, lv, j);
        assert(c.subrange(0, b.len() as int) =~= b);
        assert(c.subrange(0, a.len() as int) =~= b.subrange(0, a.len() as int));
    } else {
        let a = config_entries(es, lv, i);
        assert(a.subrange(0, a.len() as int) =~= a);
    }
}

pub(crate) proof fn lemma_cstatements_prefix(k: Seq<char>, vs: Seq<Object>, lv: nat, i: int, j: int)
    requires
        0 <= i <= j <= vs.len(),
    ensures
        config_statements(k, vs, lv, i).len() <= config_statements(k, vs, lv, j).len(),
        config_statements(k, vs, lv, j).subrange(0, config_statements(k, vs, lv, i).len() as int)
            == config_statements(k, vs, lv, i),
    decreases j - i,
{
    if i < j {
        lemma_cstatements_prefix(k, vs, lv, i, j - 1);
        let a = config_statements(k, vs, lv, i);
        let b = config_statements(k, vs, lv, j - 1);
        let c = config_statements(k, vs, lv, j);
        assert(c.subrange(0, b.len() as int) =~= b);
        assert(c.subrange(0, a.len() as int) =~= b.subrange(0, a.len() as int));
    } else {
        let a = config_statements(k, vs, lv, i);
        assert(a.subrange(0, a.len() as int) =~= a);
    }
}

pub(crate) proof fn lemma_celements_prefix(a: Seq<Object>, lv: nat, i: int, j: int)
    requires
        0 <= i <= j <= a.len(),
    ensures
        config_elements(a, lv, i).len() <= config_elements(a, lv, j).len(),
        config_elements(a, lv, j).subrange(0, config_elements(a, lv, i).len() as int)
            == config_elements(a, lv, i),
    decreases j - i,
{
    if i < j {
        lemma_celements_prefix(a, lv, i, j - 1);
        let x = config_elements(a, lv, i);
        let b = config_elements(a, lv, j - 1);
        let c = config_elements(a, lv, j);
        assert(c.subrange(0, b.len() as int) =~= b);
        assert(c.subrange(0, x.len() as int) =~= b.subrange(0, x.len() as int));
    } else {
        let x = config_elements(a, lv, i);
        assert(x.subrange(0, x.len() as int) =~= x);
    }
}

/// The native text of a safe value is not empty; its first character opens
/// an object, an array or a string, or is plain; all of a leaf's
/// characters but a string's are plain.
pub(crate) proof fn lemma_config_first(v: Object, room: nat, no_time: bool, lv: nat)
    requires
        config_safe(v, room, no_time),
    ensures
        ({
            let t = config_text(v, lv);
            &&& t.len() > 0
            &&& (v.value is Object <==> t[0] == '{')
            &&& (v.value is Array <==> t[0] == '[')
            &&& (v.value is String <==> t[0] == '"')
            &&& (!(v.value is Object) && !(v.value is Array) && !(v.value is String) ==> forall|m: int|
                0 <= m < t.len() ==> is_plain(#[trigger] t[m]))
            &&& (!(v.value is Object) && !(v.value is Array) && !(v.value is String) ==> t[0]
                != '.')
        }),
{
    match v.value {
        Value::Object(_) => {},
        Value::Array(_) => {},
        Value::String(_) => {},
        Value::Time(d) => {
            lemma_leaf_plain(Value::Float(d), Emitter::Config);
            let t = config_text(v, lv);
            assert(t == decimal_text(d) + seq!['s']);
            assert(leaf_text(Value::Float(d), Emitter::Config) == Some(decimal_text(d)));
            assert forall|m: int| 0 <= m < t.len() implies is_plain(#[trigger] t[m]) by {
                if m < decimal_text(d).len() {
                    assert(t[m] == decimal_text(d)[m]);
                }
            }
        },
        _ => {
            lemma_leaf_plain(v.value, Emitter::Config);
        },
    }
}

} // verus!
