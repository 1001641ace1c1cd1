//! The expression grammar, as a recursive-descent parser over characters.
//!
//! An expression is, in order of preference: a filter followed by a
//! template, a template, a filter, or a field selector; it must span the
//! whole input.

use vstd::prelude::*;
use crate::dsl::operators::{grammar_op_of, parse_comparison_op};
use crate::filter::{parts_view, ComparisonOp, FExpr, FVal, FieldPath, FilterExpr, FilterValue, TItem, Template, TemplateItem};
use crate::text::{chars_of, is_whitespace, is_ws, push_char, slice_vec, string_of};

verus! {

pub open spec fn ascii_alpha(c: char) -> bool {
    ('a' <= c && c <= 'z') || ('A' <= c && c <= 'Z')
}

pub open spec fn ascii_digit(c: char) -> bool {
    '0' <= c && c <= '9'
}

pub open spec fn ident_start(c: char) -> bool {
    ascii_alpha(c) || c == '_'
}

pub open spec fn ident_char(c: char) -> bool {
    ident_start(c) || ascii_digit(c)
}

/// End of the run of characters satisfying `p` that starts at `i`.
pub open spec fn run_end(s: Seq<char>, i: int, p: spec_fn(char) -> bool) -> int
    decreases s.len() - i,
{
    if 0 <= i < s.len() && p(s[i]) {
        run_end(s, i + 1, p)
    } else {
        i
    }
}

pub proof fn lemma_run_end(s: Seq<char>, i: int, p: spec_fn(char) -> bool)
    requires
        0 <= i <= s.len(),
    ensures
        i <= run_end(s, i, p) <= s.len(),
        forall|k: int| i <= k < run_end(s, i, p) ==> p(#[trigger] s[k]),
        run_end(s, i, p) < s.len() ==> !p(s[run_end(s, i, p)]),
    decreases s.len() - i,
{
    if i < s.len() && p(s[i]) {
        lemma_run_end(s, i + 1, p);
    }
}

/// Past the whitespace that starts at `i`.
pub open spec fn ws_end(s: Seq<char>, i: int) -> int {
    run_end(s, i, |c: char| is_ws(c))
}

/// End of a path component at `i`: a run of digits, or an identifier.
pub open spec fn component_end(s: Seq<char>, i: int) -> Option<int> {
    if 0 <= i < s.len() && ascii_digit(s[i]) {
        Some(run_end(s, i, |c: char| ascii_digit(c)))
    } else if 0 <= i < s.len() && ident_start(s[i]) {
        Some(run_end(s, i + 1, |c: char| ident_char(c)))
    } else {
        None
    }
}

/// More `.component`s after a path's first component.
pub open spec fn path_rest(s: Seq<char>, e: int, parts: Seq<Seq<char>>) -> (Seq<Seq<char>>, int)
    decreases s.len() - e,
{
    if 0 <= e && e + 1 < s.len() && s[e] == '.' {
        match component_end(s, e + 1) {
            Some(e2) => if e + 1 < e2 <= s.len() {
                path_rest(s, e2, parts.push(s.subrange(e + 1, e2)))
            } else {
                (parts, e)
            },
            None => (parts, e),
        }
    } else {
        (parts, e)
    }
}

/// A field path at `i`: components separated by dots.
pub open spec fn field_path(s: Seq<char>, i: int) -> Option<(Seq<Seq<char>>, int)> {
    match component_end(s, i) {
        Some(e) => Some(path_rest(s, e, seq![s.subrange(i, e)])),
        None => None,
    }
}

/// A field path whose first component is an identifier.
pub open spec fn named_path(s: Seq<char>, i: int) -> Option<(Seq<Seq<char>>, int)> {
    if 0 <= i < s.len() && ident_start(s[i]) {
        field_path(s, i)
    } else {
        None
    }
}

/// Index of the quote `q` that closes a string literal, scanning from `j`;
/// a backslash skips the character after it.
pub open spec fn closing_quote(s: Seq<char>, j: int, q: char) -> Option<int>
    decreases s.len() - j,
{
    if j < 0 || j >= s.len() {
        None
    } else if s[j] == '\\' {
        if j + 1 < s.len() {
            closing_quote(s, j + 2, q)
        } else {
            None
        }
    } else if s[j] == q {
        Some(j)
    } else {
        closing_quote(s, j + 1, q)
    }
}

/// A string literal at `i`, in double or single quotes: its raw content
/// and its end.
pub open spec fn string_literal(s: Seq<char>, i: int) -> Option<(Seq<char>, int)> {
    if 0 <= i < s.len() && (s[i] == '"' || s[i] == '\'') {
        match closing_quote(s, i + 1, s[i]) {
            Some(c) => Some((s.subrange(i + 1, c), c + 1)),
            None => None,
        }
    } else {
        None
    }
}

/// The content of a quoted literal: `\"`, `\'` and `\\` stand for the
/// character after the backslash; any other backslash is kept.
pub open spec fn unescape(raw: Seq<char>) -> Seq<char>
    decreases raw.len(),
{
    if raw.len() == 0 {
        Seq::empty()
    } else if raw[0] == '\\' {
        if raw.len() == 1 {
            seq!['\\']
        } else {
            let x = raw[1];
            (if x == '"' || x == '\'' || x == '\\' {
                seq![x]
            } else {
                seq!['\\', x]
            }) + unescape(raw.skip(2))
        }
    } else {
        seq![raw[0]] + unescape(raw.skip(1))
    }
}

/// `s` written inside a quoted literal: a backslash before each backslash
/// and each quote, every other character as it is.
pub open spec fn escaped_text(s: Seq<char>) -> Seq<char>
    decreases s.len(),
{
    if s.len() == 0 {
        Seq::empty()
    } else {
        let c = s[0];
        (if c == '\\' || c == '"' || c == '\'' {
            seq!['\\', c]
        } else {
            seq![c]
        }) + escaped_text(s.drop_first())
    }
}

/// Unescaping a quoted literal undoes escaping: every escaped pair `\\`,
/// `\"` and `\'` stands for one backslash or quote, so any text, escaped
/// and then unescaped, comes back unchanged.
pub proof fn lemma_unescape_escaped(s: Seq<char>)
    ensures
        unescape(escaped_text(s)) == s,
    decreases s.len(),
{
    if s.len() > 0 {
        let c = s[0];
        let rest = s.drop_first();
        lemma_unescape_escaped(rest);
        let e = escaped_text(s);
        if c == '\\' || c == '"' || c == '\'' {
            assert(e == seq!['\\', c] + escaped_text(rest));
            assert(e.skip(2) =~= escaped_text(rest));
            assert(e[0] == '\\' && e[1] == c);
        } else {
            assert(e == seq![c] + escaped_text(rest));
            assert(e.skip(1) =~= escaped_text(rest));
            assert(e[0] == c);
        }
        assert(s =~= seq![c] + rest);
    }
}

/// A regex literal `/pattern/flags` at `i`.
pub open spec fn regex_literal(s: Seq<char>, i: int) -> Option<(Seq<char>, Option<Seq<char>>, int)> {
    if 0 <= i < s.len() && s[i] == '/' {
        let c = run_end(s, i + 1, |ch: char| ch != '/');
        if c < s.len() {
            let f = run_end(s, c + 1, |ch: char| ascii_alpha(ch));
            Some(
                (
                    s.subrange(i + 1, c),
                    if f > c + 1 {
                        Some(s.subrange(c + 1, f))
                    } else {
                        None
                    },
                    f,
                ),
            )
        } else {
            None
        }
    } else {
        None
    }
}

/// End of a number at `i`: an optional `-`, digits, and an optional
/// fraction.
pub open spec fn number_end(s: Seq<char>, i: int) -> Option<int> {
    let j = if 0 <= i < s.len() && s[i] == '-' {
        i + 1
    } else {
        i
    };
    let d = run_end(s, j, |c: char| ascii_digit(c));
    if d == j {
        None
    } else if d + 1 < s.len() && s[d] == '.' && ascii_digit(s[d + 1]) {
        Some(run_end(s, d + 1, |c: char| ascii_digit(c)))
    } else {
        Some(d)
    }
}

/// The word `w` at `i`, not followed by an identifier character.
pub open spec fn keyword_at(s: Seq<char>, i: int, w: Seq<char>) -> bool {
    0 <= i && i + w.len() <= s.len() && s.subrange(i, i + w.len()) == w && !(i + w.len() < s.len()
        && ident_char(s[i + w.len()]))
}

/// A filter literal as written.
pub enum Lit {
    Str(Seq<char>),
    Pattern(Seq<char>, Option<Seq<char>>),
    Num(Seq<char>),
    Bool(bool),
    Null,
}

/// A literal at `i`: a quoted string, a regex, a number, `true`, `false`,
/// `null`, or a bare path read as a string.
pub open spec fn literal(s: Seq<char>, i: int) -> Option<(Lit, int)> {
    if string_literal(s, i) is Some {
        let (raw, e) = string_literal(s, i)->Some_0;
        Some((Lit::Str(unescape(raw)), e))
    } else if regex_literal(s, i) is Some {
        let (p, f, e) = regex_literal(s, i)->Some_0;
        Some((Lit::Pattern(p, f), e))
    } else if number_end(s, i) is Some {
        let e = number_end(s, i)->Some_0;
        Some((Lit::Num(s.subrange(i, e)), e))
    } else if keyword_at(s, i, seq!['t', 'r', 'u', 'e']) {
        Some((Lit::Bool(true), i + 4))
    } else if keyword_at(s, i, seq!['f', 'a', 'l', 's', 'e']) {
        Some((Lit::Bool(false), i + 5))
    } else if keyword_at(s, i, seq!['n', 'u', 'l', 'l']) {
        Some((Lit::Null, i + 4))
    } else {
        match field_path(s, i) {
            Some((_, e)) => Some((Lit::Str(s.subrange(i, e)), e)),
            None => None,
        }
    }
}

/// A comparison operator at `i`, two-character symbols first: the
/// operator, the symbol and its end.
pub open spec fn comparison_op(s: Seq<char>, i: int) -> Option<(ComparisonOp, Seq<char>, int)> {
    if 0 <= i && i + 2 <= s.len() && grammar_op_of(s.subrange(i, i + 2)) is Ok {
        Some((grammar_op_of(s.subrange(i, i + 2))->Ok_0, s.subrange(i, i + 2), i + 2))
    } else if 0 <= i && i + 1 <= s.len() && grammar_op_of(s.subrange(i, i + 1)) is Ok {
        Some((grammar_op_of(s.subrange(i, i + 1))->Ok_0, s.subrange(i, i + 1), i + 1))
    } else {
        None
    }
}

// ---------------------------------------------------------------------
// Executable scanners.

fn is_ascii_digit(c: char) -> (r: bool)
    ensures
        r == ascii_digit(c),
{
    '0' <= c && c <= '9'
}

fn is_ident_start(c: char) -> (r: bool)
    ensures
        r == ident_start(c),
{
    ('a' <= c && c <= 'z') || ('A' <= c && c <= 'Z') || c == '_'
}

fn is_ident_char(c: char) -> (r: bool)
    ensures
        r == ident_char(c),
{
    is_ident_start(c) || is_ascii_digit(c)
}

pub fn skip_ws(s: &[char], i: usize) -> (r: usize)
    requires
        i <= s.len(),
    ensures
        r == ws_end(s@, i as int),
        i <= r <= s.len(),
{
    let mut k = i;
    while k < s.len() && is_whitespace(s[k])
        invariant
            i <= k <= s.len(),
            ws_end(s@, i as int) == ws_end(s@, k as int),
        decreases s.len() - k,
    {
        k = k + 1;
    }
    k
}

fn digits_end(s: &[char], i: usize) -> (r: usize)
    requires
        i <= s.len(),
    ensures
        r == run_end(s@, i as int, |c: char| ascii_digit(c)),
        i <= r <= s.len(),
{
    let mut k = i;
    while k < s.len() && is_ascii_digit(s[k])
        invariant
            i <= k <= s.len(),
            run_end(s@, i as int, |c: char| ascii_digit(c)) == run_end(s@, k as int, |c: char| ascii_digit(c)),
        decreases s.len() - k,
    {
        k = k + 1;
    }
    k
}

fn ident_end(s: &[char], i: usize) -> (r: usize)
    requires
        i <= s.len(),
    ensures
        r == run_end(s@, i as int, |c: char| ident_char(c)),
        i <= r <= s.len(),
{
    let mut k = i;
    while k < s.len() && is_ident_char(s[k])
        invariant
            i <= k <= s.len(),
            run_end(s@, i as int, |c: char| ident_char(c)) == run_end(s@, k as int, |c: char| ident_char(c)),
        decreases s.len() - k,
    {
        k = k + 1;
    }
    k
}

fn component_end_exec(s: &[char], i: usize) -> (r: Option<usize>)
    requires
        i <= s.len(),
    ensures
        match r {
            Some(e) => component_end(s@, i as int) == Some(e as int) && i < e <= s.len(),
            None => component_end(s@, i as int) is None,
        },
{
    if i < s.len() && is_ascii_digit(s[i]) {
        proof {
            lemma_run_end(s@, i + 1, |c: char| ascii_digit(c));
        }
        Some(digits_end(s, i))
    } else if i < s.len() && is_ident_start(s[i]) {
        proof {
            lemma_run_end(s@, i + 1, |c: char| ident_char(c));
        }
        Some(ident_end(s, i + 1))
    } else {
        None
    }
}

/// A field path at `i`.
pub fn field_path_exec(s: &[char], i: usize) -> (r: Option<(Vec<String>, usize)>)
    requires
        i <= s.len(),
    ensures
        match r {
            Some((parts, e)) => field_path(s@, i as int) == Some(
                (parts_view(parts@), e as int),
            ) && i < e <= s.len(),
            None => field_path(s@, i as int) is None,
        },
{
    let e0 = match component_end_exec(s, i) {
        Some(e) => e,
        None => {
            return None;
        },
    };
    let mut parts: Vec<String> = Vec::new();
    parts.push(string_of(&slice_vec(s, i, e0)));
    let mut e = e0;
    proof {
        assert(parts_view(parts@) =~= seq![s@.subrange(i as int, e0 as int)]);
    }
    while e < s.len() && e + 1 < s.len() && s[e] == '.'
        invariant
            i < e <= s.len(),
            field_path(s@, i as int) == Some(path_rest(s@, e as int, parts_view(parts@))),
        decreases s.len() - e,
    {
        match component_end_exec(s, e + 1) {
            Some(e2) => {
                let ghost before = parts_view(parts@);
                parts.push(string_of(&slice_vec(s, e + 1, e2)));
                proof {
                    assert(parts_view(parts@) =~= before.push(s@.subrange(e + 1, e2 as int)));
                }
                e = e2;
            },
            None => {
                return Some((parts, e));
            },
        }
    }
    Some((parts, e))
}

/// A field path at `i` whose first component is an identifier.
fn named_path_exec(s: &[char], i: usize) -> (r: Option<(Vec<String>, usize)>)
    requires
        i <= s.len(),
    ensures
        match r {
            Some((parts, e)) => named_path(s@, i as int) == Some(
                (parts_view(parts@), e as int),
            ) && i < e <= s.len(),
            None => named_path(s@, i as int) is None,
        },
{
    if i < s.len() && is_ident_start(s[i]) {
        field_path_exec(s, i)
    } else {
        None
    }
}

fn closing_quote_exec(s: &[char], j: usize, q: char) -> (r: Option<usize>)
    requires
        j <= s.len(),
    ensures
        match r {
            Some(c) => closing_quote(s@, j as int, q) == Some(c as int) && j <= c < s.len(),
            None => closing_quote(s@, j as int, q) is None,
        },
{
    let mut k = j;
    while k < s.len()
        invariant
            j <= k <= s.len(),
            closing_quote(s@, j as int, q) == closing_quote(s@, k as int, q),
        decreases s.len() - k,
    {
        if s[k] == '\\' {
            if k + 1 < s.len() {
                k = k + 2;
            } else {
                return None;
            }
        } else if s[k] == q {
            return Some(k);
        } else {
            k = k + 1;
        }
    }
    None
}

fn string_literal_exec(s: &[char], i: usize) -> (r: Option<(Vec<char>, usize)>)
    requires
        i <= s.len(),
    ensures
        match r {
            Some((raw, e)) => string_literal(s@, i as int) == Some((raw@, e as int)) && i < e <= s.len(),
            None => string_literal(s@, i as int) is None,
        },
{
    if i < s.len() && (s[i] == '"' || s[i] == '\'') {
        match closing_quote_exec(s, i + 1, s[i]) {
            Some(c) => Some((slice_vec(s, i + 1, c), c + 1)),
            None => None,
        }
    } else {
        None
    }
}

/// Unescape a quoted literal's raw content: `\"`, `\'` and `\\` stand for
/// the character after the backslash; any other backslash sequence is kept
/// as written, and a final lone backslash stays.
pub fn unescape_chars(raw: &[char]) -> (r: String)
    ensures
        r@ == unescape(raw@),
{
    let mut out = String::new();
    let mut i: usize = 0;
    proof {
        assert(raw@.skip(0) == raw@);
    }
    while i < raw.len()
        invariant
            i <= raw.len(),
            out@ + unescape(raw@.skip(i as int)) == unescape(raw@),
        decreases raw.len() - i,
    {
        let ghost rest = raw@.skip(i as int);
        let c = raw[i];
        if c == '\\' {
            if i + 1 < raw.len() {
                let x = raw[i + 1];
                proof {
                    assert(rest.skip(2) == raw@.skip(i + 2));
                }
                if x == '"' || x == '\'' || x == '\\' {
                    push_char(&mut out, x);
                } else {
                    push_char(&mut out, '\\');
                    push_char(&mut out, x);
                }
                proof {
                    assert(out@ + unescape(raw@.skip(i + 2)) =~= unescape(raw@));
                }
                i = i + 2;
            } else {
                push_char(&mut out, '\\');
                proof {
                    assert(raw@.skip(i + 1).len() == 0);
                    assert(out@ + unescape(raw@.skip(i + 1)) =~= unescape(raw@));
                }
                i = i + 1;
            }
        } else {
            push_char(&mut out, c);
            proof {
                assert(rest.skip(1) == raw@.skip(i + 1));
                assert(out@ + unescape(raw@.skip(i + 1)) =~= unescape(raw@));
            }
            i = i + 1;
        }
    }
    proof {
        assert(raw@.skip(i as int).len() == 0);
        assert(out@ + unescape(raw@.skip(i as int)) =~= out@);
    }
    out
}

fn regex_literal_exec(s: &[char], i: usize) -> (r: Option<(Vec<char>, Option<Vec<char>>, usize)>)
    requires
        i <= s.len(),
    ensures
        match r {
            Some((p, f, e)) => regex_literal(s@, i as int) == Some(
                (
                    p@,
                    match f {
                        Some(fl) => Some(fl@),
                        None => None,
                    },
                    e as int,
                ),
            ) && i < e <= s.len(),
            None => regex_literal(s@, i as int) is None,
        },
{
    if !(i < s.len() && s[i] == '/') {
        return None;
    }
    let mut c = i + 1;
    while c < s.len() && s[c] != '/'
        invariant
            i + 1 <= c <= s.len(),
            run_end(s@, i + 1, |ch: char| ch != '/') == run_end(s@, c as int, |ch: char| ch != '/'),
        decreases s.len() - c,
    {
        c = c + 1;
    }
    if c >= s.len() {
        return None;
    }
    let mut f = c + 1;
    while f < s.len() && (('a' <= s[f] && s[f] <= 'z') || ('A' <= s[f] && s[f] <= 'Z'))
        invariant
            c + 1 <= f <= s.len(),
            run_end(s@, c + 1, |ch: char| ascii_alpha(ch)) == run_end(s@, f as int, |ch: char| ascii_alpha(ch)),
        decreases s.len() - f,
    {
        f = f + 1;
    }
    let flags = if f > c + 1 {
        Some(slice_vec(s, c + 1, f))
    } else {
        None
    };
    Some((slice_vec(s, i + 1, c), flags, f))
}

fn number_end_exec(s: &[char], i: usize) -> (r: Option<usize>)
    requires
        i <= s.len(),
    ensures
        match r {
            Some(e) => number_end(s@, i as int) == Some(e as int) && i < e <= s.len(),
            None => number_end(s@, i as int) is None,
        },
{
    let j = if i < s.len() && s[i] == '-' {
        i + 1
    } else {
        i
    };
    let d = digits_end(s, j);
    if d == j {
        return None;
    }
    if d < s.len() && d + 1 < s.len() && s[d] == '.' && is_ascii_digit(s[d + 1]) {
        Some(digits_end(s, d + 1))
    } else {
        Some(d)
    }
}

fn keyword_at_exec(s: &[char], i: usize, w: &[char]) -> (r: bool)
    requires
        i <= s.len(),
    ensures
        r == keyword_at(s@, i as int, w@),
{
    if w.len() > s.len() - i {
        return false;
    }
    let mut k: usize = 0;
    while k < w.len()
        invariant
            k <= w.len(),
            i + w.len() <= s.len(),
            forall|m: int| 0 <= m < k ==> s@[i + m] == w@[m],
        decreases w.len() - k,
    {
        if s[i + k] != w[k] {
            proof {
                assert(s@.subrange(i as int, i + w.len())[k as int] != w@[k as int]);
            }
            return false;
        }
        k = k + 1;
    }
    proof {
        assert(s@.subrange(i as int, i + w.len()) =~= w@);
    }
    !(i + w.len() < s.len() && is_ident_char(s[i + w.len()]))
}

/// A filter literal as read.
pub enum LitValue {
    Str(String),
    Pattern(Vec<char>, Option<Vec<char>>),
    Num(Vec<char>),
    Bool(bool),
    Null,
}

impl View for LitValue {
    type V = Lit;

    open spec fn view(&self) -> Lit {
        match self {
            LitValue::Str(s) => Lit::Str(s@),
            LitValue::Pattern(p, f) => Lit::Pattern(
                p@,
                match f {
                    Some(fl) => Some(fl@),
                    None => None,
                },
            ),
            LitValue::Num(t) => Lit::Num(t@),
            LitValue::Bool(b) => Lit::Bool(*b),
            LitValue::Null => Lit::Null,
        }
    }
}

fn literal_exec(s: &[char], i: usize) -> (r: Option<(LitValue, usize)>)
    requires
        i <= s.len(),
    ensures
        match r {
            Some((v, e)) => literal(s@, i as int) == Some((v@, e as int)) && i < e <= s.len(),
            None => literal(s@, i as int) is None,
        },
{
    if let Some((raw, e)) = string_literal_exec(s, i) {
        return Some((LitValue::Str(unescape_chars(&raw)), e));
    }
    if let Some((p, f, e)) = regex_literal_exec(s, i) {
        return Some((LitValue::Pattern(p, f), e));
    }
    if let Some(e) = number_end_exec(s, i) {
        return Some((LitValue::Num(slice_vec(s, i, e)), e));
    }
    proof {
        assert(['t', 'r', 'u', 'e']@ == seq!['t', 'r', 'u', 'e']);
        assert(['f', 'a', 'l', 's', 'e']@ == seq!['f', 'a', 'l', 's', 'e']);
        assert(['n', 'u', 'l', 'l']@ == seq!['n', 'u', 'l', 'l']);
    }
    if keyword_at_exec(s, i, &['t', 'r', 'u', 'e']) {
        return Some((LitValue::Bool(true), i + 4));
    }
    if keyword_at_exec(s, i, &['f', 'a', 'l', 's', 'e']) {
        return Some((LitValue::Bool(false), i + 5));
    }
    if keyword_at_exec(s, i, &['n', 'u', 'l', 'l']) {
        return Some((LitValue::Null, i + 4));
    }
    match field_path_exec(s, i) {
        Some((_, e)) => Some((LitValue::Str(string_of(&slice_vec(s, i, e))), e)),
        None => None,
    }
}

fn op_of_chars(sym: &[char]) -> (r: Option<ComparisonOp>)
    ensures
        match r {
            Some(op) => grammar_op_of(sym@) == Ok::<ComparisonOp, Seq<char>>(op),
            None => grammar_op_of(sym@) is Err,
        },
{
    let t = string_of(sym);
    match parse_comparison_op(t.as_str()) {
        Ok(op) => Some(op),
        Err(_) => None,
    }
}

fn comparison_op_exec(s: &[char], i: usize) -> (r: Option<(ComparisonOp, Vec<char>, usize)>)
    requires
        i <= s.len(),
    ensures
        match r {
            Some((op, sym, e)) => comparison_op(s@, i as int) == Some((op, sym@, e as int)) && i < e
                <= s.len(),
            None => comparison_op(s@, i as int) is None,
        },
{
    if s.len() - i >= 2 {
        let two = slice_vec(s, i, i + 2);
        if let Some(op) = op_of_chars(&two) {
            return Some((op, two, i + 2));
        }
    }
    if s.len() - i >= 1 {
        let one = slice_vec(s, i, i + 1);
        if let Some(op) = op_of_chars(&one) {
            return Some((op, one, i + 1));
        }
    }
    None
}

// ---------------------------------------------------------------------
// Filters.

/// The outcome of parsing a filter: no match, a match that is an error,
/// or a match with its end.
pub enum FOut {
    Fail,
    Bad(Seq<char>),
    Done(FExpr, int),
}

/// The error for a regex literal after a contains operator.
pub open spec fn tilde_message(sym: Seq<char>) -> Seq<char> {
    "'"@ + sym + "' is contains, not regex match - use '~=' for a regex pattern"@
}

/// A literal as a filter value; a regex literal's pattern is a string.
pub open spec fn lit_value(v: Lit) -> FVal {
    match v {
        Lit::Str(s) => FVal::Str(s),
        Lit::Pattern(p, _) => FVal::Str(p),
        Lit::Num(t) => FVal::Num(t),
        Lit::Bool(b) => FVal::Bool(b),
        Lit::Null => FVal::Null,
    }
}

/// A literal after `~=`: numbers and booleans become their text.
pub open spec fn pattern_value(v: Lit) -> FVal {
    match v {
        Lit::Num(t) => FVal::Str(t),
        Lit::Bool(b) => FVal::Str(
            if b {
                seq!['t', 'r', 'u', 'e']
            } else {
                seq!['f', 'a', 'l', 's', 'e']
            },
        ),
        _ => lit_value(v),
    }
}

/// The comparison `path op v` ending at `e`. A regex literal after `~=`
/// is a pattern match; after a contains operator it is an error.
pub open spec fn comparison_of(path: Seq<Seq<char>>, op: ComparisonOp, sym: Seq<char>, v: Lit, e: int) -> FOut {
    match v {
        Lit::Pattern(p, f) => if op == ComparisonOp::Contains {
            FOut::Bad(tilde_message(sym))
        } else if op == ComparisonOp::Regex {
            FOut::Done(FExpr::Pattern(path, p, f), e)
        } else {
            FOut::Done(FExpr::Compare(path, op, FVal::Str(p)), e)
        },
        _ => if op == ComparisonOp::Regex {
            FOut::Done(FExpr::Compare(path, op, pattern_value(v)), e)
        } else {
            FOut::Done(FExpr::Compare(path, op, lit_value(v)), e)
        },
    }
}

/// `path?` with the path ending at `e`.
pub open spec fn truthy_at(s: Seq<char>, path: Seq<Seq<char>>, e: int) -> FOut {
    if 0 <= e < s.len() && s[e] == '?' {
        FOut::Done(FExpr::Truthy(path), e + 1)
    } else {
        FOut::Fail
    }
}

/// A comparison at `i`: a parenthesized filter, `path op literal`, or
/// `path?`.
pub open spec fn comparison_expr(s: Seq<char>, i: int) -> FOut
    decreases s.len() - i, 0int,
{
    if 0 <= i < s.len() && s[i] == '(' {
        let j = ws_end(s, i + 1);
        if j <= i || j > s.len() {
            FOut::Fail
        } else {
            match or_expr(s, j) {
                FOut::Done(e, k) => {
                    let k2 = ws_end(s, k);
                    if 0 <= k2 < s.len() && s[k2] == ')' {
                        FOut::Done(e, k2 + 1)
                    } else {
                        FOut::Fail
                    }
                },
                other => other,
            }
        }
    } else {
        match field_path(s, i) {
            None => FOut::Fail,
            Some((path, e)) => match comparison_op(s, ws_end(s, e)) {
                Some((op, sym, k2)) => match literal(s, ws_end(s, k2)) {
                    Some((v, k4)) => comparison_of(path, op, sym, v, k4),
                    None => truthy_at(s, path, e),
                },
                None => truthy_at(s, path, e),
            },
        }
    }
}

/// A negation `!filter` or a comparison at `i`.
pub open spec fn not_expr(s: Seq<char>, i: int) -> FOut
    decreases s.len() - i, 1int,
{
    if 0 <= i < s.len() && s[i] == '!' {
        let j = ws_end(s, i + 1);
        if j <= i || j > s.len() {
            FOut::Fail
        } else {
            match not_expr(s, j) {
                FOut::Done(e, k) => FOut::Done(FExpr::Not(Box::new(e)), k),
                other => other,
            }
        }
    } else {
        comparison_expr(s, i)
    }
}

/// Further `&& operand`s after `left`, which ends at `e`.
pub open spec fn and_rest(s: Seq<char>, left: FExpr, e: int) -> FOut
    decreases s.len() - e, 2int,
{
    let k = ws_end(s, e);
    if 0 <= e <= k && k + 1 < s.len() && s[k] == '&' && s[k + 1] == '&' {
        let j = ws_end(s, k + 2);
        if j <= e || j > s.len() {
            FOut::Done(left, e)
        } else {
            match not_expr(s, j) {
                FOut::Done(r, e2) => if e < e2 <= s.len() {
                    and_rest(s, FExpr::And(Box::new(left), Box::new(r)), e2)
                } else {
                    FOut::Done(left, e)
                },
                FOut::Fail => FOut::Done(left, e),
                FOut::Bad(m) => FOut::Bad(m),
            }
        }
    } else {
        FOut::Done(left, e)
    }
}

/// Operands joined by `&&`, left to right.
pub open spec fn and_expr(s: Seq<char>, i: int) -> FOut
    decreases s.len() - i, 3int,
{
    match not_expr(s, i) {
        FOut::Done(l, e) => if i <= e <= s.len() {
            and_rest(s, l, e)
        } else {
            FOut::Fail
        },
        other => other,
    }
}

/// Further `|| operand`s after `left`, which ends at `e`.
pub open spec fn or_rest(s: Seq<char>, left: FExpr, e: int) -> FOut
    decreases s.len() - e, 4int,
{
    let k = ws_end(s, e);
    if 0 <= e <= k && k + 1 < s.len() && s[k] == '|' && s[k + 1] == '|' {
        let j = ws_end(s, k + 2);
        if j <= e || j > s.len() {
            FOut::Done(left, e)
        } else {
            match and_expr(s, j) {
                FOut::Done(r, e2) => if e < e2 <= s.len() {
                    or_rest(s, FExpr::Or(Box::new(left), Box::new(r)), e2)
                } else {
                    FOut::Done(left, e)
                },
                FOut::Fail => FOut::Done(left, e),
                FOut::Bad(m) => FOut::Bad(m),
            }
        }
    } else {
        FOut::Done(left, e)
    }
}

/// A filter at `i`: `&&`-groups joined by `||`, left to right.
pub open spec fn or_expr(s: Seq<char>, i: int) -> FOut
    decreases s.len() - i, 5int,
{
    match and_expr(s, i) {
        FOut::Done(l, e) => if i <= e <= s.len() {
            or_rest(s, l, e)
        } else {
            FOut::Fail
        },
        other => other,
    }
}

/// The outcome of parsing a filter.
pub enum FilterParse {
    Fail,
    Bad(String),
    Done(FilterExpr, usize),
}

impl View for FilterParse {
    type V = FOut;

    open spec fn view(&self) -> FOut {
        match self {
            FilterParse::Fail => FOut::Fail,
            FilterParse::Bad(m) => FOut::Bad(m@),
            FilterParse::Done(e, k) => FOut::Done(e@, *k as int),
        }
    }
}

/// The ends of a parse lie within the input, past its start.
pub open spec fn ends_within(r: FOut, i: int, n: int) -> bool {
    r matches FOut::Done(_, e) ==> i < e <= n
}

fn path_of(parts: Vec<String>) -> (r: FieldPath)
    ensures
        r@ == parts_view(parts@),
{
    let r = FieldPath::new(parts);
    proof {
        assert(r@ =~= parts_view(parts@));
    }
    r
}

fn tilde_error(sym: &[char]) -> (r: String)
    ensures
        r@ == tilde_message(sym@),
{
    let mut m = String::from_str("'");
    let t = string_of(sym);
    m.append(t.as_str());
    m.append("' is contains, not regex match - use '~=' for a regex pattern");
    proof {
        reveal_strlit("'");
        reveal_strlit("' is contains, not regex match - use '~=' for a regex pattern");
        assert(m@ =~= tilde_message(sym@));
    }
    m
}

fn lit_filter_value(v: LitValue) -> (r: FilterValue)
    ensures
        r@ == lit_value(v@),
{
    match v {
        LitValue::Str(s) => FilterValue::String(s),
        LitValue::Pattern(p, _) => FilterValue::String(string_of(&p)),
        LitValue::Num(t) => FilterValue::Number(string_of(&t)),
        LitValue::Bool(b) => FilterValue::Boolean(b),
        LitValue::Null => FilterValue::Null,
    }
}

fn pattern_filter_value(v: LitValue) -> (r: FilterValue)
    ensures
        r@ == pattern_value(v@),
{
    match v {
        LitValue::Num(t) => FilterValue::String(string_of(&t)),
        LitValue::Bool(b) => {
            let t = if b {
                crate::record::chars_string(&['t', 'r', 'u', 'e'])
            } else {
                crate::record::chars_string(&['f', 'a', 'l', 's', 'e'])
            };
            proof {
                assert(['t', 'r', 'u', 'e']@ == seq!['t', 'r', 'u', 'e']);
                assert(['f', 'a', 'l', 's', 'e']@ == seq!['f', 'a', 'l', 's', 'e']);
            }
            FilterValue::String(t)
        },
        other => lit_filter_value(other),
    }
}

fn comparison_of_exec(parts: Vec<String>, op: ComparisonOp, sym: Vec<char>, v: LitValue, e: usize) -> (r: FilterParse)
    ensures
        r@ == comparison_of(parts_view(parts@), op, sym@, v@, e as int),
{
    match v {
        LitValue::Pattern(p, f) => {
            if op == ComparisonOp::Contains {
                FilterParse::Bad(tilde_error(&sym))
            } else if op == ComparisonOp::Regex {
                let flags = match f {
                    Some(fl) => Some(string_of(&fl)),
                    None => None,
                };
                FilterParse::Done(
                    FilterExpr::Regex { field: path_of(parts), pattern: string_of(&p), flags },
                    e,
                )
            } else {
                FilterParse::Done(
                    FilterExpr::Comparison {
                        field: path_of(parts),
                        op,
                        value: FilterValue::String(string_of(&p)),
                    },
                    e,
                )
            }
        },
        other => {
            if op == ComparisonOp::Regex {
                FilterParse::Done(
                    FilterExpr::Comparison { field: path_of(parts), op, value: pattern_filter_value(other) },
                    e,
                )
            } else {
                FilterParse::Done(
                    FilterExpr::Comparison { field: path_of(parts), op, value: lit_filter_value(other) },
                    e,
                )
            }
        },
    }
}

fn truthy_at_exec(s: &[char], parts: Vec<String>, e: usize) -> (r: FilterParse)
    requires
        e <= s.len(),
    ensures
        r@ == truthy_at(s@, parts_view(parts@), e as int),
        ends_within(r@, e as int - 1, s.len() as int),
{
    if e < s.len() && s[e] == '?' {
        FilterParse::Done(FilterExpr::FieldTruthy(path_of(parts)), e + 1)
    } else {
        FilterParse::Fail
    }
}

/// A comparison at `i`.
pub fn comparison_expr_exec(s: &[char], i: usize) -> (r: FilterParse)
    requires
        i <= s.len(),
    ensures
        r@ == comparison_expr(s@, i as int),
        ends_within(r@, i as int, s.len() as int),
    decreases s.len() - i, 0int,
{
    if i < s.len() && s[i] == '(' {
        let j = skip_ws(s, i + 1);
        match or_expr_exec(s, j) {
            FilterParse::Done(e, k) => {
                let k2 = skip_ws(s, k);
                if k2 < s.len() && s[k2] == ')' {
                    FilterParse::Done(e, k2 + 1)
                } else {
                    FilterParse::Fail
                }
            },
            other => other,
        }
    } else {
        match field_path_exec(s, i) {
            None => FilterParse::Fail,
            Some((parts, e)) => {
                let k = skip_ws(s, e);
                match comparison_op_exec(s, k) {
                    Some((op, sym, k2)) => {
                        let k3 = skip_ws(s, k2);
                        match literal_exec(s, k3) {
                            Some((v, k4)) => comparison_of_exec(parts, op, sym, v, k4),
                            None => truthy_at_exec(s, parts, e),
                        }
                    },
                    None => truthy_at_exec(s, parts, e),
                }
            },
        }
    }
}

/// A negation or a comparison at `i`.
pub fn not_expr_exec(s: &[char], i: usize) -> (r: FilterParse)
    requires
        i <= s.len(),
    ensures
        r@ == not_expr(s@, i as int),
        ends_within(r@, i as int, s.len() as int),
    decreases s.len() - i, 1int,
{
    if i < s.len() && s[i] == '!' {
        let j = skip_ws(s, i + 1);
        match not_expr_exec(s, j) {
            FilterParse::Done(e, k) => FilterParse::Done(FilterExpr::Not(Box::new(e)), k),
            other => other,
        }
    } else {
        comparison_expr_exec(s, i)
    }
}

fn and_rest_exec(s: &[char], left: FilterExpr, e: usize) -> (r: FilterParse)
    requires
        e <= s.len(),
    ensures
        r@ == and_rest(s@, left@, e as int),
        ends_within(r@, e as int - 1, s.len() as int),
    decreases s.len() - e, 2int,
{
    let k = skip_ws(s, e);
    if k < s.len() && k + 1 < s.len() && s[k] == '&' && s[k + 1] == '&' {
        let j = skip_ws(s, k + 2);
        match not_expr_exec(s, j) {
            FilterParse::Done(r, e2) => and_rest_exec(
                s,
                FilterExpr::And(Box::new(left), Box::new(r)),
                e2,
            ),
            FilterParse::Fail => FilterParse::Done(left, e),
            FilterParse::Bad(m) => FilterParse::Bad(m),
        }
    } else {
        FilterParse::Done(left, e)
    }
}

/// Operands joined by `&&`.
pub fn and_expr_exec(s: &[char], i: usize) -> (r: FilterParse)
    requires
        i <= s.len(),
    ensures
        r@ == and_expr(s@, i as int),
        ends_within(r@, i as int, s.len() as int),
    decreases s.len() - i, 3int,
{
    match not_expr_exec(s, i) {
        FilterParse::Done(l, e) => and_rest_exec(s, l, e),
        other => other,
    }
}

fn or_rest_exec(s: &[char], left: FilterExpr, e: usize) -> (r: FilterParse)
    requires
        e <= s.len(),
    ensures
        r@ == or_rest(s@, left@, e as int),
        ends_within(r@, e as int - 1, s.len() as int),
    decreases s.len() - e, 4int,
{
    let k = skip_ws(s, e);
    if k < s.len() && k + 1 < s.len() && s[k] == '|' && s[k + 1] == '|' {
        let j = skip_ws(s, k + 2);
        match and_expr_exec(s, j) {
            FilterParse::Done(r, e2) => or_rest_exec(
                s,
                FilterExpr::Or(Box::new(left), Box::new(r)),
                e2,
            ),
            FilterParse::Fail => FilterParse::Done(left, e),
            FilterParse::Bad(m) => FilterParse::Bad(m),
        }
    } else {
        FilterParse::Done(left, e)
    }
}

/// A filter at `i`.
pub fn or_expr_exec(s: &[char], i: usize) -> (r: FilterParse)
    requires
        i <= s.len(),
    ensures
        r@ == or_expr(s@, i as int),
        ends_within(r@, i as int, s.len() as int),
    decreases s.len() - i, 5int,
{
    match and_expr_exec(s, i) {
        FilterParse::Done(l, e) => or_rest_exec(s, l, e),
        other => other,
    }
}

// ---------------------------------------------------------------------
// Templates.

/// `${0}` names the record's source, `$0`.
pub open spec fn source_mapped(p: Seq<Seq<char>>) -> Seq<Seq<char>> {
    if p == seq![seq!['0']] {
        seq![seq!['$', '0']]
    } else {
        p
    }
}

/// `${path}` at `i`.
pub open spec fn braced_var(s: Seq<char>, i: int) -> Option<(Seq<Seq<char>>, int)> {
    if 0 <= i && i + 1 < s.len() && s[i] == '$' && s[i + 1] == '{' {
        match field_path(s, i + 2) {
            Some((p, e)) => if 0 <= e < s.len() && s[e] == '}' {
                Some((source_mapped(p), e + 1))
            } else {
                None
            },
            None => None,
        }
    } else {
        None
    }
}

/// `$path` at `i`, the path starting with an identifier.
pub open spec fn plain_var(s: Seq<char>, i: int) -> Option<(Seq<Seq<char>>, int)> {
    if 0 <= i < s.len() && s[i] == '$' {
        named_path(s, i + 1)
    } else {
        None
    }
}

/// A template variable at `i`: `${path}`, else `$path`.
pub open spec fn variable(s: Seq<char>, i: int) -> Option<(Seq<Seq<char>>, int)> {
    if braced_var(s, i) is Some {
        braced_var(s, i)
    } else {
        plain_var(s, i)
    }
}

/// A character of literal text inside a conditional's branch.
pub open spec fn cond_lit_char(s: Seq<char>, k: int) -> bool {
    0 <= k < s.len() && s[k] != ':' && s[k] != '}' && variable(s, k) is None
}

/// End of the literal run that starts at `k` in a conditional's branch.
pub open spec fn cond_lit_end(s: Seq<char>, k: int) -> int
    decreases s.len() - k,
{
    if cond_lit_char(s, k) {
        cond_lit_end(s, k + 1)
    } else {
        k
    }
}

/// The variables and literal runs of a conditional's branch, from `i`.
pub open spec fn cond_items(s: Seq<char>, i: int) -> (Seq<TItem>, int)
    decreases s.len() - i,
{
    if variable(s, i) is Some {
        let (p, e) = variable(s, i)->Some_0;
        if i < e <= s.len() {
            let (rest, e2) = cond_items(s, e);
            (seq![TItem::Field(p)] + rest, e2)
        } else {
            (Seq::empty(), i)
        }
    } else if cond_lit_char(s, i) {
        let e = cond_lit_end(s, i);
        if i < e <= s.len() {
            let (rest, e2) = cond_items(s, e);
            (seq![TItem::Lit(s.subrange(i, e))] + rest, e2)
        } else {
            (Seq::empty(), i)
        }
    } else {
        (Seq::empty(), i)
    }
}

/// `${path?then:else}` at `i`.
pub open spec fn conditional(s: Seq<char>, i: int) -> Option<(TItem, int)> {
    if 0 <= i && i + 1 < s.len() && s[i] == '$' && s[i + 1] == '{' {
        match field_path(s, i + 2) {
            Some((p, e)) => if 0 <= e < s.len() && s[e] == '?' {
                let (t, e1) = cond_items(s, e + 1);
                if 0 <= e1 < s.len() && s[e1] == ':' {
                    let (f, e2) = cond_items(s, e1 + 1);
                    if 0 <= e2 < s.len() && s[e2] == '}' {
                        Some((TItem::Cond(p, t, f), e2 + 1))
                    } else {
                        None
                    }
                } else {
                    None
                }
            } else {
                None
            },
            None => None,
        }
    } else {
        None
    }
}

/// A character of literal text in a `{…}` template.
pub open spec fn braced_lit_char(s: Seq<char>, k: int) -> bool {
    0 <= k < s.len() && s[k] != '}' && variable(s, k) is None && conditional(s, k) is None
}

pub open spec fn braced_lit_end(s: Seq<char>, k: int) -> int
    decreases s.len() - k,
{
    if braced_lit_char(s, k) {
        braced_lit_end(s, k + 1)
    } else {
        k
    }
}

/// The pieces of a `{…}` template's content, from `i`.
pub open spec fn braced_items(s: Seq<char>, i: int) -> (Seq<TItem>, int)
    decreases s.len() - i,
{
    let one: Option<(TItem, int)> = if variable(s, i) is Some {
        let (p, e) = variable(s, i)->Some_0;
        Some((TItem::Field(p), e))
    } else if conditional(s, i) is Some {
        conditional(s, i)
    } else if braced_lit_char(s, i) {
        let e = braced_lit_end(s, i);
        Some((TItem::Lit(s.subrange(i, e)), e))
    } else {
        None
    };
    match one {
        Some((it, e)) => if i < e <= s.len() {
            let (rest, e2) = braced_items(s, e);
            (seq![it] + rest, e2)
        } else {
            (Seq::empty(), i)
        },
        None => (Seq::empty(), i),
    }
}

/// `\[` or `\]` at `k`.
pub open spec fn escape_at(s: Seq<char>, k: int) -> bool {
    0 <= k && k + 1 < s.len() && s[k] == '\\' && (s[k + 1] == '[' || s[k + 1] == ']')
}

/// A character of literal text in a `[…]` template.
pub open spec fn bracket_lit_char(s: Seq<char>, k: int) -> bool {
    0 <= k < s.len() && s[k] != '[' && s[k] != ']' && !escape_at(s, k) && variable(s, k) is None
        && conditional(s, k) is None
}

pub open spec fn bracket_lit_end(s: Seq<char>, k: int) -> int
    decreases s.len() - k,
{
    if bracket_lit_char(s, k) {
        bracket_lit_end(s, k + 1)
    } else {
        k
    }
}

/// The pieces of a `[…]` template's content, from `i`. A balanced `[…]`
/// inside is literal brackets around content that still interpolates;
/// `\[` and `\]` are literal brackets.
pub open spec fn bracketed_items(s: Seq<char>, i: int) -> (Seq<TItem>, int)
    decreases s.len() - i,
{
    let one: Option<(Seq<TItem>, int)> = if variable(s, i) is Some {
        let (p, e) = variable(s, i)->Some_0;
        Some((seq![TItem::Field(p)], e))
    } else if conditional(s, i) is Some {
        let (c, e) = conditional(s, i)->Some_0;
        Some((seq![c], e))
    } else if 0 <= i < s.len() && s[i] == '[' {
        let (inner, e) = bracketed_items(s, i + 1);
        if i < e < s.len() && s[e] == ']' {
            Some((seq![TItem::Lit(seq!['['])] + inner + seq![TItem::Lit(seq![']'])], e + 1))
        } else {
            None
        }
    } else if escape_at(s, i) {
        Some((seq![TItem::Lit(seq![s[i + 1]])], i + 2))
    } else if bracket_lit_char(s, i) {
        let e = bracket_lit_end(s, i);
        Some((seq![TItem::Lit(s.subrange(i, e))], e))
    } else {
        None
    };
    match one {
        Some((its, e)) => if i < e <= s.len() {
            let (rest, e2) = bracketed_items(s, e);
            (its + rest, e2)
        } else {
            (Seq::empty(), i)
        },
        None => (Seq::empty(), i),
    }
}

/// A `{…}` or `[…]` template at `i`.
pub open spec fn block_template(s: Seq<char>, i: int) -> Option<(Seq<TItem>, int)> {
    if 0 <= i < s.len() && s[i] == '{' {
        let (items, e) = braced_items(s, i + 1);
        if 0 <= e < s.len() && s[e] == '}' {
            Some((items, e + 1))
        } else {
            None
        }
    } else if 0 <= i < s.len() && s[i] == '[' {
        let (items, e) = bracketed_items(s, i + 1);
        if 0 <= e < s.len() && s[e] == ']' {
            Some((items, e + 1))
        } else {
            None
        }
    } else {
        None
    }
}

/// A template at `i`: `{…}`, `[…]`, `$path`, a conditional, `${path}`,
/// or a dollar amount `$digits`, which is literal text.
pub open spec fn template_expr(s: Seq<char>, i: int) -> Option<(Seq<TItem>, int)> {
    if block_template(s, i) is Some {
        block_template(s, i)
    } else if plain_var(s, i) is Some {
        let (p, e) = plain_var(s, i)->Some_0;
        Some((seq![TItem::Field(p)], e))
    } else if conditional(s, i) is Some {
        let (c, e) = conditional(s, i)->Some_0;
        Some((seq![c], e))
    } else if braced_var(s, i) is Some {
        let (p, e) = braced_var(s, i)->Some_0;
        Some((seq![TItem::Field(p)], e))
    } else if 0 <= i < s.len() && s[i] == '$' && run_end(s, i + 1, |c: char| ascii_digit(c)) > i + 1 {
        let e = run_end(s, i + 1, |c: char| ascii_digit(c));
        Some((seq![TItem::Lit(s.subrange(i, e))], e))
    } else {
        None
    }
}

fn braced_var_exec(s: &[char], i: usize) -> (r: Option<(Vec<String>, usize)>)
    requires
        i <= s.len(),
    ensures
        match r {
            Some((p, e)) => braced_var(s@, i as int) == Some((parts_view(p@), e as int))
                && i < e <= s.len(),
            None => braced_var(s@, i as int) is None,
        },
{
    if i < s.len() && i + 1 < s.len() && s[i] == '$' && s[i + 1] == '{' {
        match field_path_exec(s, i + 2) {
            Some((p, e)) => {
                if e < s.len() && s[e] == '}' {
                    let zero = p.len() == 1 && crate::filter::words_equal(&chars_of(p[0].as_str()), &['0']);
                    proof {
                        assert(['0']@ == seq!['0']);
                        if parts_view(p@) == seq![seq!['0']] {
                            assert(parts_view(p@).len() == 1);
                            assert(parts_view(p@)[0] == p@[0]@);
                        }
                        if zero {
                            assert(parts_view(p@) =~= seq![seq!['0']]);
                        }
                    }
                    if zero {
                        let mut q: Vec<String> = Vec::new();
                        q.push(crate::record::chars_string(&['$', '0']));
                        proof {
                            assert(['$', '0']@ == seq!['$', '0']);
                            assert(parts_view(q@) =~= seq![seq!['$', '0']]);
                        }
                        Some((q, e + 1))
                    } else {
                        Some((p, e + 1))
                    }
                } else {
                    None
                }
            },
            None => None,
        }
    } else {
        None
    }
}

fn plain_var_exec(s: &[char], i: usize) -> (r: Option<(Vec<String>, usize)>)
    requires
        i <= s.len(),
    ensures
        match r {
            Some((p, e)) => plain_var(s@, i as int) == Some((parts_view(p@), e as int))
                && i < e <= s.len(),
            None => plain_var(s@, i as int) is None,
        },
{
    if i < s.len() && s[i] == '$' {
        named_path_exec(s, i + 1)
    } else {
        None
    }
}

fn variable_exec(s: &[char], i: usize) -> (r: Option<(Vec<String>, usize)>)
    requires
        i <= s.len(),
    ensures
        match r {
            Some((p, e)) => variable(s@, i as int) == Some((parts_view(p@), e as int))
                && i < e <= s.len(),
            None => variable(s@, i as int) is None,
        },
{
    match braced_var_exec(s, i) {
        Some(r) => Some(r),
        None => plain_var_exec(s, i),
    }
}

fn cond_lit_end_exec(s: &[char], i: usize) -> (r: usize)
    requires
        i <= s.len(),
    ensures
        r == cond_lit_end(s@, i as int),
        i <= r <= s.len(),
        cond_lit_char(s@, i as int) ==> i < r,
{
    let mut k = i;
    while k < s.len() && s[k] != ':' && s[k] != '}' && variable_exec(s, k).is_none()
        invariant
            i <= k <= s.len(),
            cond_lit_end(s@, i as int) == cond_lit_end(s@, k as int),
        decreases s.len() - k,
    {
        k = k + 1;
    }
    k
}

fn cond_items_exec(s: &[char], i: usize) -> (r: (Vec<TemplateItem>, usize))
    requires
        i <= s.len(),
    ensures
        cond_items(s@, i as int) == ((Template { items: r.0 })@, r.1 as int),
        i <= r.1 <= s.len(),
    decreases s.len() - i,
{
    match variable_exec(s, i) {
        Some((p, e)) => {
            let ghost pv = parts_view(p@);
            let (rest, e2) = cond_items_exec(s, e);
            let mut items: Vec<TemplateItem> = Vec::new();
            items.push(TemplateItem::Field(path_of(p)));
            let ghost rv = (Template { items: rest })@;
            let mut rest = rest;
            items.append(&mut rest);
            proof {
                assert((Template { items: items })@ =~= seq![TItem::Field(pv)] + rv);
            }
            (items, e2)
        },
        None => {
            if i < s.len() && s[i] != ':' && s[i] != '}' {
                let e = cond_lit_end_exec(s, i);
                let (rest, e2) = cond_items_exec(s, e);
                let mut items: Vec<TemplateItem> = Vec::new();
                items.push(TemplateItem::Literal(string_of(&slice_vec(s, i, e))));
                let ghost rv = (Template { items: rest })@;
                let mut rest = rest;
                items.append(&mut rest);
                proof {
                    assert((Template { items: items })@ =~= seq![TItem::Lit(s@.subrange(i as int, e as int))] + rv);
                }
                (items, e2)
            } else {
                (Vec::new(), i)
            }
        },
    }
}

fn conditional_exec(s: &[char], i: usize) -> (r: Option<(TemplateItem, usize)>)
    requires
        i <= s.len(),
    ensures
        match r {
            Some((c, e)) => conditional(s@, i as int) == Some((c@, e as int)) && i < e <= s.len(),
            None => conditional(s@, i as int) is None,
        },
{
    if !(i < s.len() && i + 1 < s.len() && s[i] == '$' && s[i + 1] == '{') {
        return None;
    }
    let (p, e) = match field_path_exec(s, i + 2) {
        Some(pe) => pe,
        None => {
            return None;
        },
    };
    if !(e < s.len() && s[e] == '?') {
        return None;
    }
    let (t, e1) = cond_items_exec(s, e + 1);
    if !(e1 < s.len() && s[e1] == ':') {
        return None;
    }
    let (f, e2) = cond_items_exec(s, e1 + 1);
    if !(e2 < s.len() && s[e2] == '}') {
        return None;
    }
    let c = TemplateItem::Conditional {
        field: path_of(p),
        true_template: Template { items: t },
        false_template: Template { items: f },
    };
    Some((c, e2 + 1))
}

fn braced_lit_end_exec(s: &[char], i: usize) -> (r: usize)
    requires
        i <= s.len(),
    ensures
        r == braced_lit_end(s@, i as int),
        i <= r <= s.len(),
        braced_lit_char(s@, i as int) ==> i < r,
{
    let mut k = i;
    while k < s.len() && s[k] != '}' && variable_exec(s, k).is_none() && conditional_exec(s, k).is_none()
        invariant
            i <= k <= s.len(),
            braced_lit_end(s@, i as int) == braced_lit_end(s@, k as int),
        decreases s.len() - k,
    {
        k = k + 1;
    }
    k
}

/// The pieces of a `{…}` template's content, from `i`.
fn braced_items_exec(s: &[char], i: usize) -> (r: (Vec<TemplateItem>, usize))
    requires
        i <= s.len(),
    ensures
        braced_items(s@, i as int) == ((Template { items: r.0 })@, r.1 as int),
        i <= r.1 <= s.len(),
    decreases s.len() - i,
{
    let one: Option<(TemplateItem, usize)> = match variable_exec(s, i) {
        Some((p, e)) => Some((TemplateItem::Field(path_of(p)), e)),
        None => match conditional_exec(s, i) {
            Some(ce) => Some(ce),
            None => if i < s.len() && s[i] != '}' {
                let e = braced_lit_end_exec(s, i);
                Some((TemplateItem::Literal(string_of(&slice_vec(s, i, e))), e))
            } else {
                None
            },
        },
    };
    match one {
        Some((it, e)) => {
            let ghost iv = it@;
            let (rest, e2) = braced_items_exec(s, e);
            let ghost rv = (Template { items: rest })@;
            let mut items: Vec<TemplateItem> = Vec::new();
            items.push(it);
            let mut rest = rest;
            items.append(&mut rest);
            proof {
                assert((Template { items: items })@ =~= seq![iv] + rv);
            }
            (items, e2)
        },
        None => (Vec::new(), i),
    }
}

fn bracket_lit_end_exec(s: &[char], i: usize) -> (r: usize)
    requires
        i <= s.len(),
    ensures
        r == bracket_lit_end(s@, i as int),
        i <= r <= s.len(),
        bracket_lit_char(s@, i as int) ==> i < r,
{
    let mut k = i;
    while k < s.len() && s[k] != '[' && s[k] != ']' && !(k + 1 < s.len() && s[k] == '\\' && (s[k + 1]
        == '[' || s[k + 1] == ']')) && variable_exec(s, k).is_none() && conditional_exec(s, k).is_none()
        invariant
            i <= k <= s.len(),
            bracket_lit_end(s@, i as int) == bracket_lit_end(s@, k as int),
        decreases s.len() - k,
    {
        k = k + 1;
    }
    k
}

fn lit_item(t: String) -> (r: Vec<TemplateItem>)
    ensures
        (Template { items: r })@ == seq![TItem::Lit(t@)],
{
    let ghost tv = t@;
    let mut r: Vec<TemplateItem> = Vec::new();
    r.push(TemplateItem::Literal(t));
    proof {
        assert((Template { items: r })@ =~= seq![TItem::Lit(tv)]);
    }
    r
}

/// The pieces of a `[…]` template's content, from `i`.
fn bracketed_items_exec(s: &[char], i: usize) -> (r: (Vec<TemplateItem>, usize))
    requires
        i <= s.len(),
    ensures
        bracketed_items(s@, i as int) == ((Template { items: r.0 })@, r.1 as int),
        i <= r.1 <= s.len(),
    decreases s.len() - i,
{
    let one: Option<(Vec<TemplateItem>, usize)> = match variable_exec(s, i) {
        Some((p, e)) => {
            let ghost pv = parts_view(p@);
            let mut v: Vec<TemplateItem> = Vec::new();
            v.push(TemplateItem::Field(path_of(p)));
            proof {
                assert((Template { items: v })@ =~= seq![TItem::Field(pv)]);
            }
            Some((v, e))
        },
        None => match conditional_exec(s, i) {
            Some((c, e)) => {
                let ghost cv = c@;
                let mut v: Vec<TemplateItem> = Vec::new();
                v.push(c);
                proof {
                    assert((Template { items: v })@ =~= seq![cv]);
                }
                Some((v, e))
            },
            None => {
                if i < s.len() && s[i] == '[' {
                    let (inner, e) = bracketed_items_exec(s, i + 1);
                    if e < s.len() && s[e] == ']' {
                        let ghost inv = (Template { items: inner })@;
                        let mut v = lit_item(crate::record::chars_string(&['[']));
                        let mut inner = inner;
                        v.append(&mut inner);
                        let mut close = lit_item(crate::record::chars_string(&[']']));
                        v.append(&mut close);
                        proof {
                            assert(['[']@ == seq!['[']);
                            assert([']']@ == seq![']']);
                            assert((Template { items: v })@ =~= seq![TItem::Lit(seq!['['])] + inv
                                + seq![TItem::Lit(seq![']'])]);
                        }
                        Some((v, e + 1))
                    } else {
                        None
                    }
                } else if i < s.len() && i + 1 < s.len() && s[i] == '\\' && (s[i + 1] == '[' || s[i
                    + 1] == ']') {
                    let mut t = String::new();
                    push_char(&mut t, s[i + 1]);
                    Some((lit_item(t), i + 2))
                } else if i < s.len() && s[i] != '[' && s[i] != ']' {
                    let e = bracket_lit_end_exec(s, i);
                    Some((lit_item(string_of(&slice_vec(s, i, e))), e))
                } else {
                    None
                }
            },
        },
    };
    match one {
        Some((its, e)) => {
            let ghost iv = (Template { items: its })@;
            let (rest, e2) = bracketed_items_exec(s, e);
            let ghost rv = (Template { items: rest })@;
            let mut items = its;
            let mut rest = rest;
            items.append(&mut rest);
            proof {
                assert((Template { items: items })@ =~= iv + rv);
            }
            (items, e2)
        },
        None => (Vec::new(), i),
    }
}

/// A `{…}` or `[…]` template at `i`.
fn block_template_exec(s: &[char], i: usize) -> (r: Option<(Vec<TemplateItem>, usize)>)
    requires
        i <= s.len(),
    ensures
        match r {
            Some((t, e)) => block_template(s@, i as int) == Some(((Template { items: t })@, e as int)) && i
                < e <= s.len(),
            None => block_template(s@, i as int) is None,
        },
{
    if i < s.len() && s[i] == '{' {
        let (items, e) = braced_items_exec(s, i + 1);
        if e < s.len() && s[e] == '}' {
            Some((items, e + 1))
        } else {
            None
        }
    } else if i < s.len() && s[i] == '[' {
        let (items, e) = bracketed_items_exec(s, i + 1);
        if e < s.len() && s[e] == ']' {
            Some((items, e + 1))
        } else {
            None
        }
    } else {
        None
    }
}

fn single_item(it: TemplateItem) -> (r: Vec<TemplateItem>)
    ensures
        (Template { items: r })@ == seq![it@],
{
    let ghost iv = it@;
    let mut r: Vec<TemplateItem> = Vec::new();
    r.push(it);
    proof {
        assert((Template { items: r })@ =~= seq![iv]);
    }
    r
}

/// A template at `i`.
pub fn template_expr_exec(s: &[char], i: usize) -> (r: Option<(Vec<TemplateItem>, usize)>)
    requires
        i <= s.len(),
    ensures
        match r {
            Some((t, e)) => template_expr(s@, i as int) == Some(((Template { items: t })@, e as int)) && i
                < e <= s.len(),
            None => template_expr(s@, i as int) is None,
        },
{
    if let Some(r) = block_template_exec(s, i) {
        return Some(r);
    }
    if let Some((p, e)) = plain_var_exec(s, i) {
        return Some((single_item(TemplateItem::Field(path_of(p))), e));
    }
    if let Some((c, e)) = conditional_exec(s, i) {
        return Some((single_item(c), e));
    }
    if let Some((p, e)) = braced_var_exec(s, i) {
        return Some((single_item(TemplateItem::Field(path_of(p))), e));
    }
    if i < s.len() && s[i] == '$' {
        let e = digits_end(s, i + 1);
        if e > i + 1 {
            return Some((single_item(TemplateItem::Literal(string_of(&slice_vec(s, i, e)))), e));
        }
    }
    None
}

// ---------------------------------------------------------------------
// Expressions.

/// A field selector at `i`: a quoted key, one component whatever it
/// holds, or a bare path.
pub open spec fn field_selector(s: Seq<char>, i: int) -> Option<(Seq<Seq<char>>, int)> {
    match string_literal(s, i) {
        Some((raw, e)) => Some((seq![unescape(raw)], e)),
        None => field_path(s, i),
    }
}

/// What an expression parses to: the message of a failure, or its filter,
/// template and field selector.
pub enum DslOut {
    Failed(Seq<char>),
    Parsed(Option<FExpr>, Option<Seq<TItem>>, Option<Seq<Seq<char>>>),
}

/// The message for input the grammar does not accept, at character
/// `pos` (from 0).
pub open spec fn syntax_message(pos: int) -> Seq<char> {
    "could not parse the expression at character "@ + crate::record::decimal_text((pos + 1) as nat)
        + ": expected a comparison (field == value), an explicit truthy check (field?), a template, or a field name"@
}

/// `out` when the parse ended at the end of `s`, else a failure there.
pub open spec fn whole(s: Seq<char>, e: int, out: DslOut) -> DslOut {
    if e == s.len() {
        out
    } else {
        DslOut::Failed(syntax_message(e))
    }
}

/// What `s` parses to. An expression is, in this order of preference, a
/// filter followed by whitespace and a `{…}`/`[…]` template, a template, a
/// filter, or a field selector; the first that matches must span the
/// whole input. Empty input parses to nothing.
pub open spec fn dsl_outcome(s: Seq<char>) -> DslOut {
    if s.len() == 0 {
        DslOut::Parsed(None, None, None)
    } else {
        match or_expr(s, 0) {
            FOut::Bad(m) => DslOut::Failed(m),
            FOut::Done(f, e) => {
                let k = ws_end(s, e);
                let comb = if e < k {
                    block_template(s, k)
                } else {
                    None
                };
                match comb {
                    Some((t, e2)) => whole(s, e2, DslOut::Parsed(Some(f), Some(t), None)),
                    None => match template_expr(s, 0) {
                        Some((t, e2)) => whole(s, e2, DslOut::Parsed(None, Some(t), None)),
                        None => whole(s, e, DslOut::Parsed(Some(f), None, None)),
                    },
                }
            },
            FOut::Fail => match template_expr(s, 0) {
                Some((t, e2)) => whole(s, e2, DslOut::Parsed(None, Some(t), None)),
                None => match field_selector(s, 0) {
                    Some((p, e)) => whole(s, e, DslOut::Parsed(None, None, Some(p))),
                    None => DslOut::Failed(syntax_message(0)),
                },
            },
        }
    }
}

/// The parts of a parse result.
pub open spec fn dsl_view(d: crate::dsl::ast::ParsedDSL) -> DslOut {
    DslOut::Parsed(
        match d.filter {
            Some(f) => Some(f@),
            None => None,
        },
        match d.template {
            Some(t) => Some(t@),
            None => None,
        },
        match d.field_selector {
            Some(p) => Some(p@),
            None => None,
        },
    )
}

fn syntax_error(pos: usize) -> (r: String)
    requires
        pos < usize::MAX,
    ensures
        r@ == syntax_message(pos as int),
{
    let mut m = String::from_str("could not parse the expression at character ");
    let n = crate::record::usize_text(pos + 1);
    m.append(n.as_str());
    m.append(
        ": expected a comparison (field == value), an explicit truthy check (field?), a template, or a field name",
    );
    proof {
        reveal_strlit("could not parse the expression at character ");
        reveal_strlit(
            ": expected a comparison (field == value), an explicit truthy check (field?), a template, or a field name",
        );
        assert(m@ =~= syntax_message(pos as int));
    }
    m
}

fn field_selector_exec(s: &[char], i: usize) -> (r: Option<(Vec<String>, usize)>)
    requires
        i <= s.len(),
    ensures
        match r {
            Some((p, e)) => field_selector(s@, i as int) == Some((parts_view(p@), e as int)) && i < e
                <= s.len(),
            None => field_selector(s@, i as int) is None,
        },
{
    match string_literal_exec(s, i) {
        Some((raw, e)) => {
            let mut p: Vec<String> = Vec::new();
            p.push(unescape_chars(&raw));
            proof {
                assert(parts_view(p@) =~= seq![unescape(raw@)]);
            }
            Some((p, e))
        },
        None => field_path_exec(s, i),
    }
}

/// The filter of `s`'s parse, or why there is none.
pub open spec fn filter_only(s: Seq<char>) -> Result<FExpr, Seq<char>> {
    match dsl_outcome(s) {
        DslOut::Failed(m) => Err(m),
        DslOut::Parsed(f, _, _) => match f {
            Some(f) => Ok(f),
            None => Err("Input is not a filter expression"@),
        },
    }
}

/// The template of `s`'s parse, or why there is none.
pub open spec fn template_only(s: Seq<char>) -> Result<Seq<TItem>, Seq<char>> {
    match dsl_outcome(s) {
        DslOut::Failed(m) => Err(m),
        DslOut::Parsed(_, t, _) => match t {
            Some(t) => Ok(t),
            None => Err("Input is not a template expression"@),
        },
    }
}

/// The field selector of `s`'s parse, or why there is none.
pub open spec fn field_selector_only(s: Seq<char>) -> Result<Seq<Seq<char>>, Seq<char>> {
    match dsl_outcome(s) {
        DslOut::Failed(m) => Err(m),
        DslOut::Parsed(_, _, p) => match p {
            Some(p) => Ok(p),
            None => Err("Input is not a field selector"@),
        },
    }
}

/// The expression parser.
pub struct DSLParser;

impl DSLParser {
    /// Parse an expression: the input must be one filter, template, field
    /// selector, or filter followed by a template.
    pub fn parse_dsl(input: &str) -> (r: Result<crate::dsl::ast::ParsedDSL, String>)
        ensures
            match r {
                Ok(d) => dsl_outcome(input@) == dsl_view(d),
                Err(m) => dsl_outcome(input@) == DslOut::Failed(m@),
            },
    {
        let v = chars_of(input);
        let s = v.as_slice();
        let mut result = crate::dsl::ast::ParsedDSL::new();
        if s.len() == 0 {
            return Ok(result);
        }
        match or_expr_exec(s, 0) {
            FilterParse::Bad(m) => Err(m),
            FilterParse::Done(f, e) => {
                let k = skip_ws(s, e);
                let comb = if e < k {
                    block_template_exec(s, k)
                } else {
                    None
                };
                match comb {
                    Some((t, e2)) => {
                        if e2 != s.len() {
                            return Err(syntax_error(e2));
                        }
                        result.filter = Some(f);
                        result.template = Some(Template { items: t });
                        Ok(result)
                    },
                    None => match template_expr_exec(s, 0) {
                        Some((t, e2)) => {
                            if e2 != s.len() {
                                return Err(syntax_error(e2));
                            }
                            result.template = Some(Template { items: t });
                            Ok(result)
                        },
                        None => {
                            if e != s.len() {
                                return Err(syntax_error(e));
                            }
                            result.filter = Some(f);
                            Ok(result)
                        },
                    },
                }
            },
            FilterParse::Fail => match template_expr_exec(s, 0) {
                Some((t, e2)) => {
                    if e2 != s.len() {
                        return Err(syntax_error(e2));
                    }
                    result.template = Some(Template { items: t });
                    Ok(result)
                },
                None => match field_selector_exec(s, 0) {
                    Some((p, e)) => {
                        if e != s.len() {
                            return Err(syntax_error(e));
                        }
                        result.field_selector = Some(path_of(p));
                        Ok(result)
                    },
                    None => Err(syntax_error(0)),
                },
            },
        }
    }

    /// Parse `input` as an expression and give its filter; an expression
    /// that parses without one is not a filter.
    pub fn parse_filter_only(input: &str) -> (r: Result<FilterExpr, String>)
        ensures
            match r {
                Ok(f) => filter_only(input@) == Ok::<FExpr, Seq<char>>(f@),
                Err(m) => filter_only(input@) == Err::<FExpr, Seq<char>>(m@),
            },
    {
        match Self::parse_dsl(input) {
            Ok(result) => match result.filter {
                Some(f) => Ok(f),
                None => {
                    proof {
                        reveal_strlit("Input is not a filter expression");
                    }
                    Err(String::from_str("Input is not a filter expression"))
                },
            },
            Err(e) => Err(e),
        }
    }

    /// Parse `input` as an expression and give its template; an expression
    /// that parses without one is not a template.
    pub fn parse_template_only(input: &str) -> (r: Result<Template, String>)
        ensures
            match r {
                Ok(t) => template_only(input@) == Ok::<Seq<TItem>, Seq<char>>(t@),
                Err(m) => template_only(input@) == Err::<Seq<TItem>, Seq<char>>(m@),
            },
    {
        match Self::parse_dsl(input) {
            Ok(result) => match result.template {
                Some(t) => Ok(t),
                None => {
                    proof {
                        reveal_strlit("Input is not a template expression");
                    }
                    Err(String::from_str("Input is not a template expression"))
                },
            },
            Err(e) => Err(e),
        }
    }

    /// Parse `input` as an expression and give its field selector; an
    /// expression that parses without one is not a field selector.
    pub fn parse_field_selector_only(input: &str) -> (r: Result<FieldPath, String>)
        ensures
            match r {
                Ok(p) => field_selector_only(input@) == Ok::<Seq<Seq<char>>, Seq<char>>(p@),
                Err(m) => field_selector_only(input@) == Err::<Seq<Seq<char>>, Seq<char>>(m@),
            },
    {
        match Self::parse_dsl(input) {
            Ok(result) => match result.field_selector {
                Some(p) => Ok(p),
                None => {
                    proof {
                        reveal_strlit("Input is not a field selector");
                    }
                    Err(String::from_str("Input is not a field selector"))
                },
            },
            Err(e) => Err(e),
        }
    }

    /// Unescape a quoted string literal's raw content (`\"` -> `"`, `\'`
    /// -> `'`, `\\` -> `\`). Any other backslash sequence is passed
    /// through unchanged.
    pub fn unescape_string_content(raw: &str) -> (r: String)
        ensures
            r@ == unescape(raw@),
    {
        let v = chars_of(raw);
        unescape_chars(&v)
    }
}

/// What a filter-only parse of `s` gives: a filter spanning the whole
/// input, the filter's own error, or a syntax error where parsing stopped.
pub open spec fn filter_outcome(s: Seq<char>) -> Result<FExpr, Seq<char>> {
    match or_expr(s, 0) {
        FOut::Done(f, e) => if e == s.len() {
            Ok(f)
        } else {
            Err(syntax_message(e))
        },
        FOut::Bad(m) => Err(m),
        FOut::Fail => Err(syntax_message(0)),
    }
}

/// What a template-only parse of `s` gives: a template spanning the whole
/// input, or a syntax error where parsing stopped.
pub open spec fn template_outcome(s: Seq<char>) -> Result<Seq<TItem>, Seq<char>> {
    match template_expr(s, 0) {
        Some((t, e)) => if e == s.len() {
            Ok(t)
        } else {
            Err(syntax_message(e))
        },
        None => Err(syntax_message(0)),
    }
}

/// The parser of filter expressions.
pub struct FilterParser;

impl FilterParser {
    /// Parse `input` as one filter expression: comparisons, truthy checks,
    /// `!`, `&&`, `||` and parentheses.
    pub fn parse_filter_expr(input: &str) -> (r: Result<FilterExpr, String>)
        ensures
            match r {
                Ok(f) => filter_outcome(input@) == Ok::<FExpr, Seq<char>>(f@),
                Err(m) => filter_outcome(input@) == Err::<FExpr, Seq<char>>(m@),
            },
    {
        let v = chars_of(input);
        let s = v.as_slice();
        match or_expr_exec(s, 0) {
            FilterParse::Done(f, e) => {
                if e != s.len() {
                    return Err(syntax_error(e));
                }
                Ok(f)
            },
            FilterParse::Bad(m) => Err(m),
            FilterParse::Fail => Err(syntax_error(0)),
        }
    }
}

/// The parser of template expressions.
pub struct TemplateParser;

impl TemplateParser {
    /// Parse `input` as one template: `{…}`, `[…]`, `$name`, or text
    /// holding `$name` variables.
    pub fn parse_template_expr(input: &str) -> (r: Result<Template, String>)
        ensures
            match r {
                Ok(t) => template_outcome(input@) == Ok::<Seq<TItem>, Seq<char>>(t@),
                Err(m) => template_outcome(input@) == Err::<Seq<TItem>, Seq<char>>(m@),
            },
    {
        let v = chars_of(input);
        let s = v.as_slice();
        match template_expr_exec(s, 0) {
            Some((t, e)) => {
                if e != s.len() {
                    return Err(syntax_error(e));
                }
                Ok(Template { items: t })
            },
            None => Err(syntax_error(0)),
        }
    }
}

} // verus!
