//! The lexer: whitespace and comments, bare words, quoted strings with
//! escapes, and heredoc strings, over a vector of characters.
use vstd::prelude::*;

verus! {

/// Why a token could not be read.
#[derive(Debug, PartialEq, Eq, Copy, Clone, Structural)]
pub enum LexError {
    /// A quoted string with no closing quote.
    UnterminatedString,
    /// A backslash escape that is not one of the accepted forms.
    BadEscape,
    /// A `/*` comment with no closing `*/`.
    UnterminatedComment,
    /// A `<<TAG` heredoc with no closing line.
    UnterminatedHeredoc,
}

pub open spec fn is_ws(c: char) -> bool {
    c == ' ' || c == '\t' || c == '\n' || c == '\r'
}

/// Characters that end a bare word.
pub open spec fn is_terminator(c: char) -> bool {
    c == '{' || c == '}' || c == '[' || c == ']' || c == ':' || c == '=' || c == ';' || c == ','
        || c == '"' || c == '\'' || c == '#' || c == '\n' || c == '\r'
}

/// Walks over whitespace and comments from `i`. `mode` is 0 outside
/// comments, -1 inside a `#` or `//` comment (which ends at a newline), and
/// the nesting depth inside `/* */` comments. The result is the position of
/// the next token, or `None` when a block comment is not closed.
pub open spec fn trivia_walk(s: Seq<char>, i: int, mode: int) -> Option<int>
    decreases s.len() - i,
{
    if i < 0 {
        None
    } else if i >= s.len() {
        if mode > 0 {
            None
        } else {
            Some(i)
        }
    } else if mode == -1 {
        if s[i] == '\n' {
            trivia_walk(s, i + 1, 0)
        } else {
            trivia_walk(s, i + 1, -1)
        }
    } else if mode > 0 {
        if s[i] == '*' && i + 1 < s.len() && s[i + 1] == '/' {
            trivia_walk(s, i + 2, mode - 1)
        } else if s[i] == '/' && i + 1 < s.len() && s[i + 1] == '*' {
            trivia_walk(s, i + 2, mode + 1)
        } else {
            trivia_walk(s, i + 1, mode)
        }
    } else if is_ws(s[i]) {
        trivia_walk(s, i + 1, 0)
    } else if s[i] == '#' {
        trivia_walk(s, i + 1, -1)
    } else if s[i] == '/' && i + 1 < s.len() && s[i + 1] == '/' {
        trivia_walk(s, i + 2, -1)
    } else if s[i] == '/' && i + 1 < s.len() && s[i + 1] == '*' {
        trivia_walk(s, i + 2, 1)
    } else {
        Some(i)
    }
}

proof fn lemma_trivia_walk_bounds(s: Seq<char>, i: int, mode: int)
    requires
        0 <= i <= s.len(),
    ensures
        trivia_walk(s, i, mode) matches Some(j) ==> i <= j <= s.len(),
    decreases s.len() - i,
{
    if i < s.len() {
        if mode == -1 {
            if s[i] == '\n' {
                lemma_trivia_walk_bounds(s, i + 1, 0);
            } else {
                lemma_trivia_walk_bounds(s, i + 1, -1);
            }
        } else if mode > 0 {
            if s[i] == '*' && i + 1 < s.len() && s[i + 1] == '/' {
                lemma_trivia_walk_bounds(s, i + 2, mode - 1);
            } else if s[i] == '/' && i + 1 < s.len() && s[i + 1] == '*' {
                lemma_trivia_walk_bounds(s, i + 2, mode + 1);
            } else {
                lemma_trivia_walk_bounds(s, i + 1, mode);
            }
        } else if is_ws(s[i]) {
            lemma_trivia_walk_bounds(s, i + 1, 0);
        } else if s[i] == '#' {
            lemma_trivia_walk_bounds(s, i + 1, -1);
        } else if s[i] == '/' && i + 1 < s.len() && s[i + 1] == '/' {
            lemma_trivia_walk_bounds(s, i + 2, -1);
        } else if s[i] == '/' && i + 1 < s.len() && s[i + 1] == '*' {
            lemma_trivia_walk_bounds(s, i + 2, 1);
        }
    }
}

/// Skips whitespace and comments from `i`: the position of the next token,
/// or `None` when a `/*` comment is not closed.
pub fn skip_trivia(s: &Vec<char>, i: usize) -> (r: Option<usize>)
    requires
        i <= s@.len(),
    ensures
        match r {
            Some(j) => trivia_walk(s@, i as int, 0) == Some(j as int) && i <= j <= s@.len(),
            None => trivia_walk(s@, i as int, 0) is None,
        },
{
    proof {
        lemma_trivia_walk_bounds(s@, i as int, 0);
    }
    let n = s.len();
    let mut j = i;
    // -1: line comment, 0: outside comments, k > 0: k nested block comments
    let mut line = false;
    let mut depth: usize = 0;
    while j < n
        invariant
            i <= j <= n == s@.len(),
            depth <= j,
            !(line && depth > 0),
            trivia_walk(s@, i as int, 0) == trivia_walk(
                s@,
                j as int,
                if line {
                    -1
                } else {
                    depth as int
                },
            ),
        decreases n - j,
    {
        let c = s[j];
        if line {
            if c == '\n' {
                line = false;
            }
            j = j + 1;
        } else if depth > 0 {
            if c == '*' && j + 1 < n && s[j + 1] == '/' {
                depth = depth - 1;
                j = j + 2;
            } else if c == '/' && j + 1 < n && s[j + 1] == '*' {
                depth = depth + 1;
                j = j + 2;
            } else {
                j = j + 1;
            }
        } else if c == ' ' || c == '\t' || c == '\n' || c == '\r' {
            j = j + 1;
        } else if c == '#' {
            line = true;
            j = j + 1;
        } else if c == '/' && j + 1 < n && s[j + 1] == '/' {
            line = true;
            j = j + 2;
        } else if c == '/' && j + 1 < n && s[j + 1] == '*' {
            depth = 1;
            j = j + 2;
        } else {
            return Some(j);
        }
    }
    if depth > 0 {
        None
    } else {
        Some(j)
    }
}

/// Whether a comment opens after the whitespace at `i`: `//` or `/*`.
pub open spec fn comment_follows(s: Seq<char>, i: int) -> bool {
    &&& 0 <= i
    &&& i + 2 < s.len()
    &&& is_ws(s[i])
    &&& s[i + 1] == '/'
    &&& (s[i + 2] == '/' || s[i + 2] == '*')
}

/// The end of the bare word starting at `i`: the first terminator, or
/// whitespace before a `//` or `/*` comment; for a key, the first
/// terminator or whitespace.
pub open spec fn word_end(s: Seq<char>, i: int, key: bool) -> int
    decreases s.len() - i,
{
    if 0 <= i < s.len() && !is_terminator(s[i]) && !(key && is_ws(s[i])) && !comment_follows(s, i) {
        word_end(s, i + 1, key)
    } else {
        i
    }
}

/// The end of the bare word starting at `i`, as [`word_end`] gives it.
pub fn scan_word(s: &Vec<char>, i: usize, key: bool) -> (r: usize)
    requires
        i <= s@.len(),
    ensures
        r as int == word_end(s@, i as int, key),
        i <= r <= s@.len(),
{
    let mut j = i;
    while j < s.len() && !is_terminator_char(s[j]) && !(key && is_space(s[j])) && !(s.len() - j
        > 2 && is_space(s[j]) && s[j + 1] == '/' && (s[j + 2] == '/' || s[j + 2] == '*'))
        invariant
            i <= j <= s@.len(),
            word_end(s@, i as int, key) == word_end(s@, j as int, key),
        decreases s@.len() - j,
    {
        j = j + 1;
    }
    j
}

pub fn is_space(c: char) -> (r: bool)
    ensures
        r == is_ws(c),
{
    c == ' ' || c == '\t' || c == '\n' || c == '\r'
}

pub fn is_terminator_char(c: char) -> (r: bool)
    ensures
        r == is_terminator(c),
{
    c == '{' || c == '}' || c == '[' || c == ']' || c == ':' || c == '=' || c == ';' || c == ','
        || c == '"' || c == '\'' || c == '#' || c == '\n' || c == '\r'
}

/// The end of `s[a..b]` once trailing whitespace is removed.
pub open spec fn trim_end(s: Seq<char>, a: int, b: int) -> int
    decreases b - a,
{
    if a < b && is_ws(s[b - 1]) {
        trim_end(s, a, b - 1)
    } else {
        b
    }
}

/// The end of `s[a..b]` once trailing whitespace is removed.
pub fn trim_trailing(s: &Vec<char>, a: usize, b: usize) -> (r: usize)
    requires
        a <= b <= s@.len(),
    ensures
        r as int == trim_end(s@, a as int, b as int),
        a <= r <= b,
{
    let mut e = b;
    while a < e && is_space(s[e - 1])
        invariant
            a <= e <= b <= s@.len(),
            trim_end(s@, a as int, b as int) == trim_end(s@, a as int, e as int),
        decreases e - a,
    {
        e = e - 1;
    }
    e
}

pub open spec fn hex_value(c: char) -> Option<int> {
    if '0' <= c && c <= '9' {
        Some(c as int - '0' as int)
    } else if 'a' <= c && c <= 'f' {
        Some(c as int - 'a' as int + 10)
    } else if 'A' <= c && c <= 'F' {
        Some(c as int - 'A' as int + 10)
    } else {
        None
    }
}

pub fn hex_digit(c: char) -> (r: Option<u32>)
    ensures
        match hex_value(c) {
            Some(v) => r == Some(v as u32),
            None => r is None,
        },
{
    if '0' <= c && c <= '9' {
        Some(c as u32 - '0' as u32)
    } else if 'a' <= c && c <= 'f' {
        Some(c as u32 - 'a' as u32 + 10)
    } else if 'A' <= c && c <= 'F' {
        Some(c as u32 - 'A' as u32 + 10)
    } else {
        None
    }
}

/// The value of the `n` hex digits at `s[i..i + n]`.
pub open spec fn hex_run(s: Seq<char>, i: int, n: nat) -> Option<int>
    decreases n,
{
    if n == 0 {
        Some(0)
    } else if i + n > s.len() {
        None
    } else {
        match (hex_run(s, i, (n - 1) as nat), hex_value(s[i + n - 1])) {
            (Some(a), Some(d)) => Some(a * 16 + d),
            _ => None,
        }
    }
}

/// The value of the `n` (at most 4) hex digits at `s[i..i + n]`.
pub fn read_hex(s: &Vec<char>, i: usize, n: usize) -> (r: Option<u32>)
    requires
        n <= 4,
    ensures
        match hex_run(s@, i as int, n as nat) {
            Some(v) => r == Some(v as u32) && 0 <= v < pow16(n as nat) <= 65536,
            None => r is None,
        },
{
    if n == 0 {
        return Some(0);
    }
    if n > s.len() || i > s.len() - n {
        proof {
            assert(hex_run(s@, i as int, n as nat) is None) by {
                reveal_with_fuel(hex_run, 1);
            }
        }
        return None;
    }
    let len = s.len();
    let mut v: u32 = 0;
    let mut k: usize = 0;
    while k < n
        invariant
            k <= n <= 4,
            len == s@.len(),
            i + n <= len,
            hex_run(s@, i as int, k as nat) == Some(v as int),
            v < pow16(k as nat),
        decreases n - k,
    {
        match hex_digit(s[i + k]) {
            Some(d) => {
                proof {
                    lemma_pow16_bound((k + 1) as nat);
                }
                assert(v * 16 + d < pow16((k + 1) as nat)) by (nonlinear_arith)
                    requires
                        v < pow16(k as nat),
                        d < 16,
                        pow16((k + 1) as nat) == 16 * pow16(k as nat),
                ;
                v = v * 16 + d;
                k = k + 1;
            },
            None => {
                proof {
                    lemma_hex_run_none(s@, i as int, (k + 1) as nat, n as nat);
                }
                return None;
            },
        }
    }
    proof {
        lemma_pow16_bound(n as nat);
    }
    Some(v)
}

pub open spec fn pow16(n: nat) -> int
    decreases n,
{
    if n == 0 {
        1
    } else {
        16 * pow16((n - 1) as nat)
    }
}

proof fn lemma_pow16_bound(n: nat)
    requires
        n <= 4,
    ensures
        1 <= pow16(n) <= 65536,
{
    reveal_with_fuel(pow16, 5);
    assert(n == 0 || n == 1 || n == 2 || n == 3 || n == 4);
}

proof fn lemma_hex_run_none(s: Seq<char>, i: int, k: nat, n: nat)
    requires
        1 <= k <= n,
        i + n <= s.len(),
        hex_value(s[i + k - 1]) is None,
    ensures
        hex_run(s, i, n) is None,
    decreases n - k,
{
    if k < n {
        lemma_hex_run_none(s, i, k, (n - 1) as nat);
    }
}


/// The character whose code is `v`.
pub open spec fn char_of(v: int) -> char {
    choose|c: char| #[trigger] code_of(c) == v
}

/// The code of a character.
pub open spec fn code_of(c: char) -> int {
    c as int
}

/// Whether `v` is the code of a character.
pub open spec fn is_char_code(v: int) -> bool {
    (0 <= v < 0xD800) || (0xE000 <= v < 0x110000)
}

/// Relies on `char::from_u32`: the character with code `v`, which exists
/// exactly for codes outside the surrogate range and below 0x110000.
#[verifier::external_body]
fn char_from_code(v: u32) -> (r: Option<char>)
    ensures
        r is Some <==> is_char_code(v as int),
        r matches Some(c) ==> c as int == v,
{
    char::from_u32(v)
}

/// Decoding of the escape whose backslash stands just before `s[j]`, inside
/// a string quoted by `q`: the character it stands for and where the string
/// goes on. In a `'` string only `\'` is an escape and any other backslash
/// is kept. In a `"` string: `\n \t \r \b \f \" \' \\ \/`, `\xNN` and
/// `\uNNNN`.
pub open spec fn escape_at(s: Seq<char>, j: int, q: char) -> Option<(char, int)> {
    if j < 0 || j >= s.len() {
        None
    } else if q == '\'' {
        if s[j] == '\'' {
            Some(('\'', j + 1))
        } else {
            Some(('\\', j))
        }
    } else {
        let c = s[j];
        if c == 'n' {
            Some(('\n', j + 1))
        } else if c == 't' {
            Some(('\t', j + 1))
        } else if c == 'r' {
            Some(('\r', j + 1))
        } else if c == 'b' {
            Some(('\x08', j + 1))
        } else if c == 'f' {
            Some(('\x0c', j + 1))
        } else if c == '"' || c == '\'' || c == '\\' || c == '/' {
            Some((c, j + 1))
        } else if c == 'x' {
            match hex_run(s, j + 1, 2) {
                Some(v) => Some((char_of(v), j + 3)),
                None => None,
            }
        } else if c == 'u' {
            match hex_run(s, j + 1, 4) {
                Some(v) => if is_char_code(v) {
                    Some((char_of(v), j + 5))
                } else {
                    None
                },
                None => None,
            }
        } else {
            None
        }
    }
}

/// The text of a string quoted by `q` whose body starts at `i`, and the
/// position after its closing quote; `None` when it is not closed or holds
/// a malformed escape.
pub open spec fn quoted_walk(s: Seq<char>, i: int, q: char) -> Option<(Seq<char>, int)>
    decreases s.len() - i,
{
    if i < 0 || i >= s.len() {
        None
    } else if s[i] == q {
        Some((Seq::empty(), i + 1))
    } else if s[i] == '\\' {
        match escape_at(s, i + 1, q) {
            Some((c, nx)) => match quoted_walk(s, nx, q) {
                Some((rest, e)) => Some((seq![c] + rest, e)),
                None => None,
            },
            None => None,
        }
    } else {
        match quoted_walk(s, i + 1, q) {
            Some((rest, e)) => Some((seq![s[i]] + rest, e)),
            None => None,
        }
    }
}

proof fn lemma_quoted_walk_bounds(s: Seq<char>, i: int, q: char)
    ensures
        quoted_walk(s, i, q) matches Some((t, e)) ==> i < e <= s.len(),
    decreases s.len() - i,
{
    if 0 <= i < s.len() && s[i] != q {
        if s[i] == '\\' {
            if let Some((c, nx)) = escape_at(s, i + 1, q) {
                lemma_quoted_walk_bounds(s, nx, q);
            }
        } else {
            lemma_quoted_walk_bounds(s, i + 1, q);
        }
    }
}

/// `r` with `pre` put in front of its text.
pub open spec fn prefixed(pre: Seq<char>, r: Option<(Seq<char>, int)>) -> Option<(Seq<char>, int)> {
    match r {
        Some((t, e)) => Some((pre + t, e)),
        None => None,
    }
}

/// Decodes the escape whose backslash stands just before `s[j]`.
pub fn read_escape(s: &Vec<char>, j: usize, q: char) -> (r: Option<(char, usize)>)
    ensures
        match escape_at(s@, j as int, q) {
            Some((c, nx)) => r matches Some(x) && x.0 == c && x.1 as int == nx,
            None => r is None,
        },
{
    if j >= s.len() {
        return None;
    }
    let c = s[j];
    if q == '\'' {
        if c == '\'' {
            return Some(('\'', j + 1));
        } else {
            return Some(('\\', j));
        }
    }
    if c == 'n' {
        Some(('\n', j + 1))
    } else if c == 't' {
        Some(('\t', j + 1))
    } else if c == 'r' {
        Some(('\r', j + 1))
    } else if c == 'b' {
        Some(('\x08', j + 1))
    } else if c == 'f' {
        Some(('\x0c', j + 1))
    } else if c == '"' || c == '\'' || c == '\\' || c == '/' {
        Some((c, j + 1))
    } else if c == 'x' || c == 'u' {
        let n: usize = if c == 'x' {
            2
        } else {
            4
        };
        if s.len() - j <= n {
            proof {
                reveal_with_fuel(hex_run, 1);
            }
            return None;
        }
        proof {
            reveal_with_fuel(pow16, 3);
        }
        match read_hex(s, j + 1, n) {
            Some(v) => match char_from_code(v) {
                Some(ch) => {
                    assert(code_of(ch) == v as int);
                    assert(code_of(char_of(v as int)) == v as int);
                    assert(ch == char_of(v as int));
                    Some((ch, j + 1 + n))
                },
                None => None,
            },
            None => None,
        }
    } else {
        None
    }
}

/// Reads the body of a string quoted by `q` starting at `i`: its text and
/// the position after the closing quote.
pub fn scan_quoted(s: &Vec<char>, i: usize, q: char) -> (r: Result<(Vec<char>, usize), LexError>)
    requires
        i <= s@.len(),
    ensures
        match quoted_walk(s@, i as int, q) {
            Some((t, e)) => r matches Ok(x) && x.0@ == t && x.1 as int == e && i < e <= s@.len(),
            None => r is Err,
        },
{
    proof {
        lemma_quoted_walk_bounds(s@, i as int, q);
    }
    let mut out: Vec<char> = Vec::new();
    let mut j = i;
    while j < s.len()
        invariant
            i <= j <= s@.len(),
            quoted_walk(s@, i as int, q) == prefixed(out@, quoted_walk(s@, j as int, q)),
        decreases s@.len() - j,
    {
        let c = s[j];
        if c == q {
            assert(out@ + Seq::<char>::empty() =~= out@);
            return Ok((out, j + 1));
        } else if c == '\\' {
            match read_escape(s, j + 1, q) {
                Some((d, nx)) => {
                    let ghost prev = out@;
                    out.push(d);
                    proof {
                        match quoted_walk(s@, nx as int, q) {
                            Some((rest, e)) => {
                                assert(prev + (seq![d] + rest) =~= out@ + rest);
                            },
                            None => {},
                        }
                    }
                    j = nx;
                },
                None => {
                    return Err(LexError::BadEscape);
                },
            }
        } else {
            let ghost prev = out@;
            out.push(c);
            proof {
                match quoted_walk(s@, j + 1, q) {
                    Some((rest, e)) => {
                        assert(prev + (seq![c] + rest) =~= out@ + rest);
                    },
                    None => {},
                }
            }
            j = j + 1;
        }
    }
    Err(LexError::UnterminatedString)
}


pub open spec fn is_upper(c: char) -> bool {
    'A' <= c && c <= 'Z'
}

/// The end of the run of uppercase letters starting at `i`.
pub open spec fn upper_end(s: Seq<char>, i: int) -> int
    decreases s.len() - i,
{
    if 0 <= i < s.len() && is_upper(s[i]) {
        upper_end(s, i + 1)
    } else {
        i
    }
}

/// Whether a heredoc opens at `i`: `<<`, an uppercase tag, and a newline.
pub open spec fn heredoc_opens(s: Seq<char>, i: int) -> bool {
    &&& 0 <= i
    &&& i + 1 < s.len()
    &&& s[i] == '<'
    &&& s[i + 1] == '<'
    &&& upper_end(s, i + 2) > i + 2
    &&& upper_end(s, i + 2) < s.len()
    &&& s[upper_end(s, i + 2)] == '\n'
}

/// Whether the line starting at `p` (just after a newline) is the tag
/// `s[a..b]` alone.
pub open spec fn closes_at(s: Seq<char>, a: int, b: int, p: int) -> bool {
    &&& 0 < p
    &&& p + (b - a) <= s.len()
    &&& s[p - 1] == '\n'
    &&& s.subrange(p, p + (b - a)) == s.subrange(a, b)
    &&& (p + (b - a) == s.len() || s[p + (b - a)] == '\n')
}

/// The first closing line for the tag `s[a..b]` at or after `p`.
pub open spec fn close_from(s: Seq<char>, a: int, b: int, p: int) -> Option<int>
    decreases s.len() + 1 - p,
{
    if p < 0 || p > s.len() {
        None
    } else if closes_at(s, a, b, p) {
        Some(p)
    } else {
        close_from(s, a, b, p + 1)
    }
}

/// The text of the heredoc opening at `i` (the lines between the opening
/// line and the closing tag, without the last newline) and the position
/// after the closing tag; `None` when no closing line follows.
pub open spec fn heredoc_at(s: Seq<char>, i: int) -> Option<(Seq<char>, int)> {
    let a = i + 2;
    let b = upper_end(s, a);
    let c = b + 1;
    match close_from(s, a, b, c) {
        Some(p) => Some(
            (if p > c {
                s.subrange(c, p - 1)
            } else {
                Seq::empty()
            }, p + (b - a)),
        ),
        None => None,
    }
}

proof fn lemma_upper_end(s: Seq<char>, i: int)
    requires
        0 <= i <= s.len(),
    ensures
        i <= upper_end(s, i) <= s.len(),
    decreases s.len() - i,
{
    if i < s.len() && is_upper(s[i]) {
        lemma_upper_end(s, i + 1);
    }
}

proof fn lemma_close_from(s: Seq<char>, a: int, b: int, p: int)
    requires
        0 <= p,
    ensures
        close_from(s, a, b, p) matches Some(q) ==> p <= q && closes_at(s, a, b, q),
    decreases s.len() + 1 - p,
{
    if p <= s.len() && !closes_at(s, a, b, p) {
        lemma_close_from(s, a, b, p + 1);
    }
}

/// Whether a heredoc opens at `i`, and where its tag ends.
pub fn heredoc_start(s: &Vec<char>, i: usize) -> (r: Option<usize>)
    requires
        i <= s@.len(),
    ensures
        r is Some == heredoc_opens(s@, i as int),
        r matches Some(b) ==> b as int == upper_end(s@, i + 2),
{
    if s.len() - i < 2 || s[i] != '<' || s[i + 1] != '<' {
        return None;
    }
    let mut b = i + 2;
    while b < s.len() && 'A' <= s[b] && s[b] <= 'Z'
        invariant
            i + 2 <= b <= s@.len(),
            upper_end(s@, i + 2) == upper_end(s@, b as int),
        decreases s@.len() - b,
    {
        b = b + 1;
    }
    if b > i + 2 && b < s.len() && s[b] == '\n' {
        Some(b)
    } else {
        None
    }
}

/// Reads the heredoc opening at `i`.
pub fn scan_heredoc(s: &Vec<char>, i: usize, b: usize) -> (r: Result<(Vec<char>, usize), LexError>)
    requires
        heredoc_opens(s@, i as int),
        b as int == upper_end(s@, i + 2),
    ensures
        match heredoc_at(s@, i as int) {
            Some((t, e)) => r matches Ok(x) && x.0@ == t && x.1 as int == e && i < e <= s@.len(),
            None => r is Err,
        },
{
    let n = s.len();
    assert(b < n);
    let a = i + 2;
    let c = b + 1;
    let tl = b - a;
    let mut p = c;
    proof {
        lemma_close_from(s@, a as int, b as int, c as int);
    }
    while p < n
        invariant
            c <= p <= n,
            a == i + 2,
            c == b + 1,
            b as int == upper_end(s@, i + 2),
            a < b < c <= n == s@.len(),
            tl == b - a,
            close_from(s@, a as int, b as int, c as int) == close_from(
                s@,
                a as int,
                b as int,
                p as int,
            ),
        decreases n - p,
    {
        if s[p - 1] == '\n' && n - p >= tl {
            let mut k: usize = 0;
            while k < tl && s[p + k] == s[a + k]
                invariant
                    k <= tl,
                    p + tl <= n == s@.len(),
                    a + tl == b < n,
                    forall|m: int|
                        0 <= m < k ==> #[trigger] s@.subrange(p as int, p + tl)[m] == s@.subrange(
                            a as int,
                            b as int,
                        )[m],
                decreases tl - k,
            {
                k = k + 1;
            }
            if k == tl && (p + tl == n || s[p + tl] == '\n') {
                assert(s@.subrange(p as int, p + tl) =~= s@.subrange(a as int, b as int));
                assert(closes_at(s@, a as int, b as int, p as int));
                assert(close_from(s@, a as int, b as int, c as int) == Some(p as int));
                let mut v: Vec<char> = Vec::new();
                if p > c {
                    let mut j = c;
                    while j < p - 1
                        invariant
                            c <= j <= p - 1,
                            p <= n == s@.len(),
                            v@ == s@.subrange(c as int, j as int),
                        decreases p - 1 - j,
                    {
                        v.push(s[j]);
                        j = j + 1;
                        assert(v@ =~= s@.subrange(c as int, j as int));
                    }
                } else {
                    assert(v@ =~= Seq::<char>::empty());
                }
                return Ok((v, p + tl));
            } else if k < tl {
                assert(s@.subrange(p as int, p + tl)[k as int] != s@.subrange(a as int, b as int)[k as int]);
            }
        }
        p = p + 1;
    }
    assert(!closes_at(s@, a as int, b as int, n as int));
    assert(close_from(s@, a as int, b as int, n + 1) is None);
    assert(close_from(s@, a as int, b as int, c as int) is None);
    Err(LexError::UnterminatedHeredoc)
}

} // verus!
