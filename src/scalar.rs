//! Classification of bare words: booleans, `null`, and numbers with an
//! optional sign, fraction, exponent and unit suffix. Anything else is text.
use vstd::prelude::*;
use crate::text::{lower_char, to_lower};
use crate::types::Decimal;

verus! {

/// What a bare word stands for.
#[derive(Debug, PartialEq, Eq, Copy, Clone, Structural)]
pub enum Scalar {
    Int(i64),
    Float(Decimal),
    /// A duration in seconds.
    Time(Decimal),
    Boolean(bool),
    Null,
    /// Not a literal: the word is kept as a string.
    Text,
}

pub open spec fn is_digit(c: char) -> bool {
    '0' <= c && c <= '9'
}

pub open spec fn digit_value(c: char) -> int {
    (c as int) - ('0' as int)
}

/// The first position at or after `i` that is not a digit.
pub open spec fn digits_end(w: Seq<char>, i: int) -> int
    decreases w.len() - i,
{
    if 0 <= i < w.len() && is_digit(w[i]) {
        digits_end(w, i + 1)
    } else {
        i
    }
}

/// The number written by the digits of `w[i..j]`, a `.` among them skipped.
pub open spec fn digits_value(w: Seq<char>, i: int, j: int) -> int
    decreases j - i,
{
    if j <= i {
        0
    } else if w[j - 1] == '.' {
        digits_value(w, i, j - 1)
    } else {
        digits_value(w, i, j - 1) * 10 + digit_value(w[j - 1])
    }
}

pub open spec fn pow10(n: nat) -> int
    decreases n,
{
    if n == 0 {
        1
    } else {
        10 * pow10((n - 1) as nat)
    }
}

/// The unit suffixes, compared without regard to case, as
/// (factor, power of ten, whether the unit is a duration):
/// `k` 10^3, `kb` 1024, `m` 10^6, `mb` 1024^2, `g` 10^9, `gb` 1024^3,
/// `ms` 10^-3 s, `s` 1 s, `min` 60 s, `h` 3600 s, `d` 86400 s,
/// `w` 604800 s, `y` 31536000 s.
pub open spec fn unit_of(s: Seq<char>) -> Option<(int, int, bool)> {
    if s.len() == 1 {
        let c = lower_char(s[0]);
        if c == 'k' {
            Some((1, 3, false))
        } else if c == 'm' {
            Some((1, 6, false))
        } else if c == 'g' {
            Some((1, 9, false))
        } else if c == 's' {
            Some((1, 0, true))
        } else if c == 'h' {
            Some((3600, 0, true))
        } else if c == 'd' {
            Some((86400, 0, true))
        } else if c == 'w' {
            Some((604800, 0, true))
        } else if c == 'y' {
            Some((31536000, 0, true))
        } else {
            None
        }
    } else if s.len() == 2 {
        let c = lower_char(s[0]);
        let d = lower_char(s[1]);
        if c == 'k' && d == 'b' {
            Some((1024, 0, false))
        } else if c == 'm' && d == 'b' {
            Some((1048576, 0, false))
        } else if c == 'g' && d == 'b' {
            Some((1073741824, 0, false))
        } else if c == 'm' && d == 's' {
            Some((1, -3, true))
        } else {
            None
        }
    } else if s.len() == 3 && lower_char(s[0]) == 'm' && lower_char(s[1]) == 'i' && lower_char(
        s[2],
    ) == 'n' {
        Some((60, 0, true))
    } else {
        None
    }
}

pub open spec fn sign_len(w: Seq<char>) -> int {
    if w.len() > 0 && (w[0] == '-' || w[0] == '+') {
        1
    } else {
        0
    }
}

pub open spec fn int_end(w: Seq<char>) -> int {
    digits_end(w, sign_len(w))
}

/// A `.` followed by at least one digit after the integer digits.
pub open spec fn has_frac(w: Seq<char>) -> bool {
    let e = int_end(w);
    e + 1 < w.len() && w[e] == '.' && is_digit(w[e + 1])
}

pub open spec fn frac_end(w: Seq<char>) -> int {
    if has_frac(w) {
        digits_end(w, int_end(w) + 1)
    } else {
        int_end(w)
    }
}

pub open spec fn frac_len(w: Seq<char>) -> int {
    if has_frac(w) {
        frac_end(w) - int_end(w) - 1
    } else {
        0
    }
}

/// Where the exponent's digits start, when `e`/`E`, an optional sign and a
/// digit follow the fraction.
pub open spec fn exp_start(w: Seq<char>) -> Option<int> {
    let f = frac_end(w);
    if f + 1 < w.len() && (w[f] == 'e' || w[f] == 'E') {
        if is_digit(w[f + 1]) {
            Some(f + 1)
        } else if f + 2 < w.len() && (w[f + 1] == '+' || w[f + 1] == '-') && is_digit(w[f + 2]) {
            Some(f + 2)
        } else {
            None
        }
    } else {
        None
    }
}

pub open spec fn exp_end(w: Seq<char>) -> int {
    match exp_start(w) {
        Some(s) => digits_end(w, s),
        None => frac_end(w),
    }
}

/// The written exponent, with its sign.
pub open spec fn exp_written(w: Seq<char>) -> int {
    match exp_start(w) {
        Some(s) => if w[s - 1] == '-' {
            -digits_value(w, s, digits_end(w, s))
        } else {
            digits_value(w, s, digits_end(w, s))
        },
        None => 0,
    }
}

/// Exponents written with a magnitude over this bound make the word text.
pub const EXP_LIMIT: u64 = 1000000000;

pub open spec fn exp_too_large(w: Seq<char>) -> bool {
    match exp_start(w) {
        Some(s) => digits_value(w, s, digits_end(w, s)) > EXP_LIMIT,
        None => false,
    }
}

pub open spec fn suffix(w: Seq<char>) -> Seq<char> {
    w.subrange(exp_end(w), w.len() as int)
}

/// A sign, digits, an optional fraction and exponent, and nothing or a unit.
pub open spec fn is_number(w: Seq<char>) -> bool {
    &&& int_end(w) > sign_len(w)
    &&& (suffix(w).len() == 0 || unit_of(suffix(w)) is Some)
}

pub open spec fn unit_or_one(w: Seq<char>) -> (int, int, bool) {
    match unit_of(suffix(w)) {
        Some(u) => u,
        None => (1, 0, false),
    }
}

/// All digits as one integer, times the unit's factor, with the sign.
pub open spec fn signed_mantissa(w: Seq<char>) -> int {
    let m = digits_value(w, sign_len(w), frac_end(w)) * unit_or_one(w).0;
    if sign_len(w) == 1 && w[0] == '-' {
        -m
    } else {
        m
    }
}

/// The power of ten that the mantissa is scaled by.
pub open spec fn exponent(w: Seq<char>) -> int {
    exp_written(w) - frac_len(w) + unit_or_one(w).1
}

pub open spec fn fits_i64(v: int) -> bool {
    i64::MIN <= v <= i64::MAX
}

pub open spec fn fits_i32(v: int) -> bool {
    i32::MIN <= v <= i32::MAX
}

/// The literal a number word stands for. A duration unit gives a `Time`
/// unless `no_time` is set, in which case the value in seconds is an
/// ordinary number. A word with neither fraction nor exponent whose scale is
/// not negative is an `Int`; others are `Float`. Values out of range are text.
pub open spec fn number_scalar(w: Seq<char>, no_time: bool) -> Scalar {
    let m = signed_mantissa(w);
    let e = exponent(w);
    if exp_too_large(w) {
        Scalar::Text
    } else if unit_or_one(w).2 && !no_time {
        if fits_i64(m) && fits_i32(e) {
            Scalar::Time(Decimal { mantissa: m as i64, exponent: e as i32 })
        } else {
            Scalar::Text
        }
    } else if !has_frac(w) && exp_start(w) is None && e >= 0 {
        if fits_i64(m * pow10(e as nat)) {
            Scalar::Int((m * pow10(e as nat)) as i64)
        } else {
            Scalar::Text
        }
    } else if fits_i64(m) && fits_i32(e) {
        Scalar::Float(Decimal { mantissa: m as i64, exponent: e as i32 })
    } else {
        Scalar::Text
    }
}

/// Whether `w`, without regard to case, is the word `lit`.
pub open spec fn word_is(w: Seq<char>, lit: Seq<char>) -> bool {
    w.len() == lit.len() && forall|i: int| 0 <= i < w.len() ==> lower_char(#[trigger] w[i]) == lit[i]
}

/// What the bare word `w` stands for: `true`, `yes`, `on` and `false`, `no`,
/// `off` are booleans and `null` is null, without regard to case; then
/// numbers; anything else is text.
pub open spec fn scalar_of(w: Seq<char>, no_time: bool) -> Scalar {
    if word_is(w, seq!['t', 'r', 'u', 'e']) || word_is(w, seq!['y', 'e', 's']) || word_is(
        w,
        seq!['o', 'n'],
    ) {
        Scalar::Boolean(true)
    } else if word_is(w, seq!['f', 'a', 'l', 's', 'e']) || word_is(w, seq!['n', 'o']) || word_is(
        w,
        seq!['o', 'f', 'f'],
    ) {
        Scalar::Boolean(false)
    } else if word_is(w, seq!['n', 'u', 'l', 'l']) {
        Scalar::Null
    } else if is_number(w) {
        number_scalar(w, no_time)
    } else {
        Scalar::Text
    }
}


proof fn lemma_digits_value_monotone(w: Seq<char>, i: int, j: int, k: int)
    requires
        i <= j <= k,
        forall|m: int| i <= m < k ==> is_digit(w[m]) || w[m] == '.',
    ensures
        0 <= digits_value(w, i, j) <= digits_value(w, i, k),
    decreases k - j,
{
    if j < k {
        lemma_digits_value_monotone(w, i, j, k - 1);
    } else {
        lemma_digits_value_nonneg(w, i, j);
    }
}

proof fn lemma_digits_value_nonneg(w: Seq<char>, i: int, j: int)
    requires
        forall|m: int| i <= m < j ==> is_digit(w[m]) || w[m] == '.',
    ensures
        0 <= digits_value(w, i, j),
    decreases j - i,
{
    if i < j {
        lemma_digits_value_nonneg(w, i, j - 1);
    }
}

proof fn lemma_digits_end(w: Seq<char>, i: int)
    requires
        0 <= i <= w.len(),
    ensures
        i <= digits_end(w, i) <= w.len(),
        forall|m: int| i <= m < digits_end(w, i) ==> is_digit(w[m]),
        digits_end(w, i) < w.len() ==> !is_digit(w[digits_end(w, i)]),
    decreases w.len() - i,
{
    if i < w.len() && is_digit(w[i]) {
        lemma_digits_end(w, i + 1);
    }
}

/// The first position at or after `i` that is not a digit.
pub fn scan_digits(w: &Vec<char>, i: usize) -> (r: usize)
    requires
        i <= w@.len(),
    ensures
        r as int == digits_end(w@, i as int),
        i <= r <= w@.len(),
{
    let mut j = i;
    while j < w.len() && '0' <= w[j] && w[j] <= '9'
        invariant
            i <= j <= w@.len(),
            digits_end(w@, i as int) == digits_end(w@, j as int),
        decreases w@.len() - j,
    {
        j = j + 1;
    }
    j
}

/// The number written by the digits of `w[i..j]` (a `.` skipped), or `None`
/// when it exceeds `u64::MAX`.
pub fn digits_u64(w: &Vec<char>, i: usize, j: usize) -> (r: Option<u64>)
    requires
        i <= j <= w@.len(),
        forall|m: int| i <= m < j ==> is_digit(w@[m]) || w@[m] == '.',
    ensures
        match r {
            Some(v) => v as int == digits_value(w@, i as int, j as int),
            None => digits_value(w@, i as int, j as int) > u64::MAX,
        },
{
    let mut v: u64 = 0;
    let mut k = i;
    while k < j
        invariant
            i <= k <= j <= w@.len(),
            forall|m: int| i <= m < j ==> is_digit(w@[m]) || w@[m] == '.',
            v as int == digits_value(w@, i as int, k as int),
        decreases j - k,
    {
        let c = w[k];
        if c != '.' {
            let d = (c as u32 - '0' as u32) as u64;
            assert(d as int == digit_value(c));
            if v > (u64::MAX - d) / 10 {
                proof {
                    assert(digits_value(w@, i as int, k + 1) > u64::MAX) by (nonlinear_arith)
                        requires
                            digits_value(w@, i as int, k + 1) == v * 10 + d,
                            v > (u64::MAX - d) / 10,
                            0 <= d <= 9,
                    ;
                    lemma_digits_value_monotone(w@, i as int, k + 1, j as int);
                }
                return None;
            }
            assert(v * 10 + d <= u64::MAX) by (nonlinear_arith)
                requires
                    v <= (u64::MAX - d) / 10,
                    0 <= d <= 9,
            ;
            v = v * 10 + d;
        }
        k = k + 1;
    }
    Some(v)
}

/// Whether `w`, without regard to case, is the word `lit`.
pub fn word_equals(w: &Vec<char>, lit: &Vec<char>) -> (r: bool)
    ensures
        r == word_is(w@, lit@),
{
    if w.len() != lit.len() {
        return false;
    }
    let mut i: usize = 0;
    while i < w.len()
        invariant
            i <= w@.len() == lit@.len(),
            forall|m: int| 0 <= m < i ==> lower_char(#[trigger] w@[m]) == lit@[m],
        decreases w@.len() - i,
    {
        if to_lower(w[i]) != lit[i] {
            return false;
        }
        i = i + 1;
    }
    true
}

/// The unit written by `w[start..]`, as [`unit_of`] gives it.
pub fn unit_at(w: &Vec<char>, start: usize) -> (r: Option<(u64, i32, bool)>)
    requires
        start <= w@.len(),
    ensures
        match unit_of(w@.subrange(start as int, w@.len() as int)) {
            Some(u) => r matches Some(x) && x.0 as int == u.0 && x.1 as int == u.1 && x.2 == u.2,
            None => r is None,
        },
{
    let ghost s = w@.subrange(start as int, w@.len() as int);
    let n = w.len() - start;
    if n == 1 {
        let c = to_lower(w[start]);
        if c == 'k' {
            Some((1, 3, false))
        } else if c == 'm' {
            Some((1, 6, false))
        } else if c == 'g' {
            Some((1, 9, false))
        } else if c == 's' {
            Some((1, 0, true))
        } else if c == 'h' {
            Some((3600, 0, true))
        } else if c == 'd' {
            Some((86400, 0, true))
        } else if c == 'w' {
            Some((604800, 0, true))
        } else if c == 'y' {
            Some((31536000, 0, true))
        } else {
            None
        }
    } else if n == 2 {
        let c = to_lower(w[start]);
        let d = to_lower(w[start + 1]);
        if c == 'k' && d == 'b' {
            Some((1024, 0, false))
        } else if c == 'm' && d == 'b' {
            Some((1048576, 0, false))
        } else if c == 'g' && d == 'b' {
            Some((1073741824, 0, false))
        } else if c == 'm' && d == 's' {
            Some((1, -3, true))
        } else {
            None
        }
    } else if n == 3 && to_lower(w[start]) == 'm' && to_lower(w[start + 1]) == 'i' && to_lower(
        w[start + 2],
    ) == 'n' {
        Some((60, 0, true))
    } else {
        None
    }
}

/// Positions found by scanning a number word.
#[derive(Debug, Copy, Clone)]
pub struct NumberShape {
    pub sign: usize,
    pub frac_end: usize,
    pub exp_start: Option<usize>,
    pub exp_end: usize,
    pub factor: u64,
    pub scale: i32,
    pub duration: bool,
    pub frac_len: usize,
}

/// The shape of `w` when it is a number, as the spec functions give it.
pub open spec fn shape_of(w: Seq<char>, sh: NumberShape) -> bool {
    &&& sh.sign as int == sign_len(w)
    &&& sh.frac_end as int == frac_end(w)
    &&& sh.frac_len as int == frac_len(w)
    &&& match exp_start(w) {
        Some(x) => sh.exp_start == Some(x as usize),
        None => sh.exp_start is None,
    }
    &&& sh.exp_end as int == exp_end(w)
    &&& sh.factor as int == unit_or_one(w).0
    &&& sh.scale as int == unit_or_one(w).1
    &&& sh.duration == unit_or_one(w).2
    &&& sign_len(w) <= frac_end(w) <= exp_end(w) <= w.len()
    &&& forall|m: int| sign_len(w) <= m < frac_end(w) ==> is_digit(w[m]) || w[m] == '.'
    &&& match exp_start(w) {
        Some(x) => 1 <= x <= exp_end(w) == digits_end(w, x) && forall|m: int|
            x <= m < exp_end(w) ==> is_digit(#[trigger] w[m]),
        None => true,
    }
}

/// Scans `w` as a number: `None` exactly when it is not one.
pub fn scan_number(w: &Vec<char>) -> (r: Option<NumberShape>)
    ensures
        r is Some == is_number(w@),
        r matches Some(sh) ==> shape_of(w@, sh),
{
    let ghost ws = w@;
    let n = w.len();
    let s: usize = if n > 0 && (w[0] == '-' || w[0] == '+') {
        1
    } else {
        0
    };
    let ie = scan_digits(w, s);
    proof {
        lemma_digits_end(ws, s as int);
    }
    if ie == s {
        return None;
    }
    let hf = n - ie > 1 && w[ie] == '.' && '0' <= w[ie + 1] && w[ie + 1] <= '9';
    let fe = if hf {
        scan_digits(w, ie + 1)
    } else {
        ie
    };
    proof {
        if hf {
            lemma_digits_end(ws, ie + 1);
        }
        assert forall|m: int| s <= m < fe implies is_digit(ws[m]) || ws[m] == '.' by {
            if m >= ie + 1 {
                lemma_digits_end(ws, ie + 1);
            }
        }
    }
    assert(hf == has_frac(ws));
    assert(fe as int == frac_end(ws));
    let es: Option<usize> = if n - fe > 1 && (w[fe] == 'e' || w[fe] == 'E') {
        if '0' <= w[fe + 1] && w[fe + 1] <= '9' {
            Some(fe + 1)
        } else if n - fe > 2 && (w[fe + 1] == '+' || w[fe + 1] == '-') && '0' <= w[fe + 2] && w[fe
            + 2] <= '9' {
            Some(fe + 2)
        } else {
            None
        }
    } else {
        None
    };
    let ee = match es {
        Some(x) => scan_digits(w, x),
        None => fe,
    };
    proof {
        if let Some(x) = es {
            lemma_digits_end(ws, x as int);
        }
    }
    let unit: (u64, i32, bool) = if ee == n {
        assert(suffix(ws).len() == 0);
        (1, 0, false)
    } else {
        match unit_at(w, ee) {
            Some(u) => u,
            None => {
                return None;
            },
        }
    };
    let fl: usize = if hf {
        fe - ie - 1
    } else {
        0
    };
    Some(
        NumberShape {
            sign: s,
            frac_end: fe,
            exp_start: es,
            exp_end: ee,
            factor: unit.0,
            scale: unit.1,
            duration: unit.2,
            frac_len: fl,
        },
    )
}

/// The exponent the mantissa is scaled by, or `None` when the written
/// exponent is too large.
pub fn exponent_of(w: &Vec<char>, sh: NumberShape) -> (r: Option<i128>)
    requires
        is_number(w@),
        shape_of(w@, sh),
    ensures
        r is None == exp_too_large(w@),
        r matches Some(e) ==> e as int == exponent(w@),
{
    let mut ew: i128 = 0;
    if let Some(x) = sh.exp_start {
        match digits_u64(w, x, sh.exp_end) {
            Some(v) => {
                if v > EXP_LIMIT {
                    return None;
                }
                ew = if w[x - 1] == '-' {
                    -(v as i128)
                } else {
                    v as i128
                };
            },
            None => {
                return None;
            },
        }
    }
    Some(ew - sh.frac_len as i128 + sh.scale as i128)
}

/// The signed mantissa, or `None` when its magnitude exceeds `u64::MAX`.
pub fn mantissa_of(w: &Vec<char>, sh: NumberShape) -> (r: Option<i128>)
    requires
        is_number(w@),
        shape_of(w@, sh),
    ensures
        match r {
            Some(m) => m as int == signed_mantissa(w@) && -u64::MAX <= m <= u64::MAX,
            None => !(-u64::MAX <= signed_mantissa(w@) <= u64::MAX),
        },
{
    let ghost ws = w@;
    let mag = match digits_u64(w, sh.sign, sh.frac_end) {
        Some(v) => v,
        None => {
            assert(digits_value(ws, sh.sign as int, sh.frac_end as int) * unit_or_one(ws).0
                > u64::MAX) by (nonlinear_arith)
                requires
                    digits_value(ws, sh.sign as int, sh.frac_end as int) > u64::MAX,
                    unit_or_one(ws).0 >= 1,
            ;
            return None;
        },
    };
    let scaled = match mag.checked_mul(sh.factor) {
        Some(v) => v,
        None => {
            return None;
        },
    };
    if sh.sign == 1 && w[0] == '-' {
        Some(-(scaled as i128))
    } else {
        Some(scaled as i128)
    }
}

/// `m * 10^e`, for a mantissa of at most `u64::MAX` and `e` at most 9.
pub fn scale_up(m: i128, e: i128) -> (r: i128)
    requires
        -u64::MAX <= m <= u64::MAX,
        0 <= e <= 9,
    ensures
        r as int == m * pow10(e as nat),
{
    let mut v: i128 = m;
    let mut k: i128 = 0;
    while k < e
        invariant
            0 <= k <= e <= 9,
            -u64::MAX <= m <= u64::MAX,
            v as int == m * pow10(k as nat),
        decreases e - k,
    {
        proof {
            lemma_pow10_bound(k as nat);
            assert(-u64::MAX * pow10(k as nat) <= m * pow10(k as nat) <= u64::MAX * pow10(
                k as nat,
            )) by (nonlinear_arith)
                requires
                    -u64::MAX <= m <= u64::MAX,
                    0 < pow10(k as nat),
            ;
            assert(pow10((k + 1) as nat) == 10 * pow10(k as nat));
        }
        v = v * 10;
        k = k + 1;
        assert(v as int == m * pow10(k as nat)) by (nonlinear_arith)
            requires
                v as int == 10 * (m * pow10((k - 1) as nat)),
                pow10(k as nat) == 10 * pow10((k - 1) as nat),
        ;
    }
    v
}

/// What the word `w` stands for when it is a number, as [`number_scalar`]
/// gives it; text when it is not a number.
pub fn classify_number(w: &Vec<char>, no_time: bool) -> (r: Scalar)
    ensures
        r == (if is_number(w@) {
            number_scalar(w@, no_time)
        } else {
            Scalar::Text
        }),
{
    let ghost ws = w@;
    let sh = match scan_number(w) {
        Some(sh) => sh,
        None => {
            return Scalar::Text;
        },
    };
    let e = match exponent_of(w, sh) {
        Some(e) => e,
        None => {
            return Scalar::Text;
        },
    };
    let int_like = sh.frac_len == 0 && sh.exp_start.is_none() && sh.frac_end == scan_digits(
        w,
        sh.sign,
    );
    assert(int_like == (!has_frac(ws) && exp_start(ws) is None)) by {
        lemma_digits_end(ws, sign_len(ws));
        if has_frac(ws) {
            lemma_digits_end(ws, int_end(ws) + 1);
        }
    }
    let m = match mantissa_of(w, sh) {
        Some(m) => m,
        None => {
            assert(number_scalar(ws, no_time) == Scalar::Text) by {
                let m = signed_mantissa(ws);
                let e = exponent(ws);
                if !unit_or_one(ws).2 || no_time {
                    if !has_frac(ws) && exp_start(ws) is None && e >= 0 {
                        lemma_pow10_positive(e as nat);
                        assert(!fits_i64(m * pow10(e as nat))) by (nonlinear_arith)
                            requires
                                !(-u64::MAX <= m <= u64::MAX),
                                pow10(e as nat) >= 1,
                        ;
                    }
                }
            }
            return Scalar::Text;
        },
    };
    let m_fits = i64::MIN as i128 <= m && m <= i64::MAX as i128;
    let e_fits = i32::MIN as i128 <= e && e <= i32::MAX as i128;
    if sh.duration && !no_time {
        if m_fits && e_fits {
            Scalar::Time(Decimal { mantissa: m as i64, exponent: e as i32 })
        } else {
            Scalar::Text
        }
    } else if int_like && e >= 0 {
        // only a unit scales a plain integer, by at most 10^9
        let v = scale_up(m, e);
        if i64::MIN as i128 <= v && v <= i64::MAX as i128 {
            Scalar::Int(v as i64)
        } else {
            Scalar::Text
        }
    } else if m_fits && e_fits {
        Scalar::Float(Decimal { mantissa: m as i64, exponent: e as i32 })
    } else {
        Scalar::Text
    }
}

proof fn lemma_pow10_positive(n: nat)
    ensures
        pow10(n) >= 1,
    decreases n,
{
    if n > 0 {
        lemma_pow10_positive((n - 1) as nat);
    }
}

proof fn lemma_pow10_bound(n: nat)
    requires
        n <= 9,
    ensures
        1 <= pow10(n) <= 1000000000,
{
    reveal_with_fuel(pow10, 10);
    assert(n == 0 || n == 1 || n == 2 || n == 3 || n == 4 || n == 5 || n == 6 || n == 7 || n == 8
        || n == 9);
}

/// What the bare word `w` stands for.
pub fn classify(w: &Vec<char>, no_time: bool) -> (r: Scalar)
    ensures
        r == scalar_of(w@, no_time),
{
    if word_equals(w, &vec!['t', 'r', 'u', 'e']) || word_equals(w, &vec!['y', 'e', 's'])
        || word_equals(w, &vec!['o', 'n']) {
        Scalar::Boolean(true)
    } else if word_equals(w, &vec!['f', 'a', 'l', 's', 'e']) || word_equals(w, &vec!['n', 'o'])
        || word_equals(w, &vec!['o', 'f', 'f']) {
        Scalar::Boolean(false)
    } else if word_equals(w, &vec!['n', 'u', 'l', 'l']) {
        Scalar::Null
    } else {
        classify_number(w, no_time)
    }
}

} // verus!
