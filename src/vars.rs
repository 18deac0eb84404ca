//! Variable expansion: `$NAME` and `${NAME}` references in values are
//! replaced by registered values, once per occurrence and without
//! rescanning what was substituted. `$$` stands for a single `$`.
use vstd::prelude::*;
use crate::text::append_chars;

verus! {

/// A registered variable.
#[derive(Debug)]
pub struct Variable {
    pub name: Vec<char>,
    pub value: Vec<char>,
}

/// Variables seen as (name, value) pairs.
pub open spec fn vars_view(vs: Seq<Variable>) -> Seq<(Seq<char>, Seq<char>)> {
    vs.map_values(|v: Variable| (v.name@, v.value@))
}

/// The value of `name`: the one registered last under that name.
pub open spec fn var_value(vs: Seq<(Seq<char>, Seq<char>)>, name: Seq<char>) -> Option<Seq<char>>
    decreases vs.len(),
{
    if vs.len() == 0 {
        None
    } else if vs.last().0 == name {
        Some(vs.last().1)
    } else {
        var_value(vs.drop_last(), name)
    }
}

pub open spec fn is_name_char(c: char) -> bool {
    ('a' <= c && c <= 'z') || ('A' <= c && c <= 'Z') || ('0' <= c && c <= '9') || c == '_'
}

/// The end of the run of name characters starting at `i`.
pub open spec fn name_end(t: Seq<char>, i: int) -> int
    decreases t.len() - i,
{
    if 0 <= i < t.len() && is_name_char(t[i]) {
        name_end(t, i + 1)
    } else {
        i
    }
}

/// The first `}` at or after `i`, or the end of `t`.
pub open spec fn brace_end(t: Seq<char>, i: int) -> int
    decreases t.len() - i,
{
    if 0 <= i < t.len() && t[i] != '}' {
        brace_end(t, i + 1)
    } else {
        i
    }
}

/// What a `$` at `i` refers to: the name, and where the text goes on after
/// the reference. `None` when no name follows.
pub open spec fn reference_at(t: Seq<char>, i: int) -> Option<(Seq<char>, int)> {
    if i + 1 < t.len() && t[i + 1] == '{' {
        let j = brace_end(t, i + 2);
        if j < t.len() {
            Some((t.subrange(i + 2, j), j + 1))
        } else {
            None
        }
    } else {
        let j = name_end(t, i + 1);
        if j > i + 1 {
            Some((t.subrange(i + 1, j), j))
        } else {
            None
        }
    }
}

/// The expansion of `t[i..]`. A reference to a registered variable becomes
/// its value; any other `$` stays as it is.
pub open spec fn expand_from(t: Seq<char>, vs: Seq<(Seq<char>, Seq<char>)>, i: int) -> Seq<char>
    decreases t.len() - i,
    via expand_from_decreases
{
    if i < 0 || i >= t.len() {
        Seq::empty()
    } else if t[i] != '$' {
        seq![t[i]] + expand_from(t, vs, i + 1)
    } else if i + 1 < t.len() && t[i + 1] == '$' {
        seq!['$'] + expand_from(t, vs, i + 2)
    } else {
        match reference_at(t, i) {
            Some((name, j)) => match var_value(vs, name) {
                Some(v) => v + expand_from(t, vs, j),
                None => seq!['$'] + expand_from(t, vs, i + 1),
            },
            None => seq!['$'] + expand_from(t, vs, i + 1),
        }
    }
}

/// Whether `t[i..]` holds a reference to a variable that is not registered.
pub open spec fn has_unknown_from(t: Seq<char>, vs: Seq<(Seq<char>, Seq<char>)>, i: int) -> bool
    decreases t.len() - i,
    via has_unknown_from_decreases
{
    if i < 0 || i >= t.len() {
        false
    } else if t[i] != '$' {
        has_unknown_from(t, vs, i + 1)
    } else if i + 1 < t.len() && t[i + 1] == '$' {
        has_unknown_from(t, vs, i + 2)
    } else {
        match reference_at(t, i) {
            Some((name, j)) => match var_value(vs, name) {
                Some(v) => has_unknown_from(t, vs, j),
                None => true,
            },
            None => has_unknown_from(t, vs, i + 1),
        }
    }
}

proof fn lemma_name_end(t: Seq<char>, i: int)
    requires
        0 <= i <= t.len(),
    ensures
        i <= name_end(t, i) <= t.len(),
    decreases t.len() - i,
{
    if i < t.len() && is_name_char(t[i]) {
        lemma_name_end(t, i + 1);
    }
}

proof fn lemma_brace_end(t: Seq<char>, i: int)
    requires
        0 <= i <= t.len(),
    ensures
        i <= brace_end(t, i) <= t.len(),
    decreases t.len() - i,
{
    if i < t.len() && t[i] != '}' {
        lemma_brace_end(t, i + 1);
    }
}

proof fn lemma_reference_at(t: Seq<char>, i: int)
    requires
        0 <= i < t.len(),
    ensures
        reference_at(t, i) matches Some((name, j)) ==> i < j <= t.len(),
{
    if i + 1 < t.len() && t[i + 1] == '{' {
        lemma_brace_end(t, i + 2);
    } else {
        lemma_name_end(t, i + 1);
    }
}

#[via_fn]
proof fn expand_from_decreases(t: Seq<char>, vs: Seq<(Seq<char>, Seq<char>)>, i: int) {
    if 0 <= i < t.len() {
        lemma_reference_at(t, i);
    }
}

#[via_fn]
proof fn has_unknown_from_decreases(t: Seq<char>, vs: Seq<(Seq<char>, Seq<char>)>, i: int) {
    if 0 <= i < t.len() {
        lemma_reference_at(t, i);
    }
}

/// The expansion of the whole of `t`.
pub open spec fn expand(t: Seq<char>, vs: Seq<(Seq<char>, Seq<char>)>) -> Seq<char> {
    expand_from(t, vs, 0)
}

/// The value of the variable named `t[a..b]`, as [`var_value`] gives it.
pub fn lookup_var<'a>(vs: &'a Vec<Variable>, t: &Vec<char>, a: usize, b: usize) -> (r: Option<&'a Vec<char>>)
    requires
        a <= b <= t@.len(),
    ensures
        match var_value(vars_view(vs@), t@.subrange(a as int, b as int)) {
            Some(v) => r matches Some(x) && x@ == v,
            None => r is None,
        },
{
    let ghost name = t@.subrange(a as int, b as int);
    let mut k = vs.len();
    assert(vars_view(vs@).take(k as int) =~= vars_view(vs@));
    while k > 0
        invariant
            a <= b <= t@.len(),
            k <= vs@.len(),
            name == t@.subrange(a as int, b as int),
            var_value(vars_view(vs@), name) == var_value(vars_view(vs@).take(k as int), name),
        decreases k,
    {
        let v = &vs[k - 1];
        let mut same = false;
        if v.name.len() == b - a {
            let mut m: usize = 0;
            while m < b - a && v.name[m] == t[a + m]
                invariant
                    a <= b <= t@.len(),
                    v.name@.len() == b - a,
                    m <= b - a,
                    forall|x: int| 0 <= x < m ==> v.name@[x] == t@[a + x],
                decreases b - a - m,
            {
                m = m + 1;
            }
            same = m == b - a;
            if same {
                assert(v.name@ =~= name);
            } else {
                assert(v.name@[m as int] != name[m as int]);
            }
        }
        assert(vars_view(vs@).take(k as int).drop_last() =~= vars_view(vs@).take(k - 1));
        if same {
            return Some(&v.value);
        }
        k = k - 1;
    }
    None
}

/// Expands the references in `t`: the expanded text, and whether some
/// reference named a variable that is not registered.
pub fn expand_vars(t: &Vec<char>, vs: &Vec<Variable>) -> (r: (Vec<char>, bool))
    ensures
        r.0@ == expand(t@, vars_view(vs@)),
        r.1 == has_unknown_from(t@, vars_view(vs@), 0),
{
    let ghost vv = vars_view(vs@);
    let mut out: Vec<char> = Vec::new();
    let mut unknown = false;
    let mut i: usize = 0;
    let n = t.len();
    while i < n
        invariant
            i <= n == t@.len(),
            vv == vars_view(vs@),
            expand(t@, vv) == out@ + expand_from(t@, vv, i as int),
            has_unknown_from(t@, vv, 0) == (unknown || has_unknown_from(t@, vv, i as int)),
        decreases n - i,
    {
        let ghost prev = out@;
        let c = t[i];
        proof {
            lemma_reference_at(t@, i as int);
        }
        if c != '$' {
            out.push(c);
            assert(prev + (seq![c] + expand_from(t@, vv, i + 1)) =~= out@ + expand_from(
                t@,
                vv,
                i + 1,
            ));
            i = i + 1;
        } else if i + 1 < n && t[i + 1] == '$' {
            out.push('$');
            assert(prev + (seq!['$'] + expand_from(t@, vv, i + 2)) =~= out@ + expand_from(
                t@,
                vv,
                i + 2,
            ));
            i = i + 2;
        } else {
            // find the name
            let (a, b, next, found) = if i + 1 < n && t[i + 1] == '{' {
                let mut j = i + 2;
                while j < n && t[j] != '}'
                    invariant
                        i + 2 <= j <= n == t@.len(),
                        brace_end(t@, i + 2) == brace_end(t@, j as int),
                    decreases n - j,
                {
                    j = j + 1;
                }
                proof {
                    lemma_brace_end(t@, i + 2);
                }
                (i + 2, j, if j < n {
                    j + 1
                } else {
                    j
                }, j < n)
            } else {
                let mut j = i + 1;
                while j < n && is_name(t[j])
                    invariant
                        i + 1 <= j <= n == t@.len(),
                        name_end(t@, i + 1) == name_end(t@, j as int),
                    decreases n - j,
                {
                    j = j + 1;
                }
                proof {
                    lemma_name_end(t@, i + 1);
                }
                (i + 1, j, j, j > i + 1)
            };
            assert(found ==> reference_at(t@, i as int) == Some(
                (t@.subrange(a as int, b as int), next as int),
            ));
            assert(!found ==> reference_at(t@, i as int) is None);
            let value = if found {
                lookup_var(vs, t, a, b)
            } else {
                None
            };
            match value {
                Some(v) => {
                    assert(expand_from(t@, vv, i as int) == v@ + expand_from(t@, vv, next as int));
                    assert(has_unknown_from(t@, vv, i as int) == has_unknown_from(t@, vv, next as int));
                    append_chars(&mut out, v);
                    assert(prev + (v@ + expand_from(t@, vv, next as int)) =~= out@ + expand_from(
                        t@,
                        vv,
                        next as int,
                    ));
                    i = next;
                },
                None => {
                    assert(expand_from(t@, vv, i as int) == seq!['$'] + expand_from(t@, vv, i + 1));
                    assert(!found ==> has_unknown_from(t@, vv, i as int) == has_unknown_from(t@, vv, i + 1));
                    assert(found ==> has_unknown_from(t@, vv, i as int));
                    if found {
                        unknown = true;
                    }
                    out.push('$');
                    assert(prev + (seq!['$'] + expand_from(t@, vv, i + 1)) =~= out@
                        + expand_from(t@, vv, i + 1));
                    i = i + 1;
                },
            }
        }
    }
    assert(out@ + Seq::<char>::empty() =~= out@);
    (out, unknown)
}

pub fn is_name(c: char) -> (r: bool)
    ensures
        r == is_name_char(c),
{
    ('a' <= c && c <= 'z') || ('A' <= c && c <= 'Z') || ('0' <= c && c <= '9') || c == '_'
}

} // verus!
