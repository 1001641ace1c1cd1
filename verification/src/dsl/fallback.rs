//! Plain-text helpers for expressions: splitting a filter from its
//! template, and reading field names.

use vstd::prelude::*;
use crate::csv_parser::{alphabetic, char_is_numeric, is_alphabetic, numeric};
use crate::dsl::{dot_parts};
use crate::dsl::ast::ParsedDSL;
use crate::dsl::grammar::{dsl_outcome, dsl_view, filter_only, template_only, DSLParser, DslOut};
use crate::filter::{
    all_digits, index_of, parse_index, parts_view, ComparisonOp, FExpr, FVal, FieldPath, FilterExpr,
    FilterValue, TItem, Template, TemplateItem,
};
use crate::number::{is_digit, number_from_chars, number_of};
use crate::operators::{contains_filter_operators, has_filter_operator};
use crate::text::{contains, contains_seq, has_char, matches_at, occurs_at, split_words, words_of};
use crate::record::{chars_string, decimal_text, usize_text};
use crate::format_detector::{byte_prefix, byte_prefix_exec, chars_within};
use crate::text::{chars_of, slice_vec, string_of, trim, trim_seq};

verus! {

/// The scan state of `split_filter_template_manually`: inside quotes and
/// which quote, open braces and brackets, and where a template starts.
pub struct SplitScan {
    pub in_quotes: bool,
    pub quote: char,
    pub braces: int,
    pub brackets: int,
    pub pos: int,
}

/// The scan after the character at `i`, which is `c`.
pub open spec fn split_step(st: SplitScan, i: int, c: char) -> SplitScan {
    if c == '"' || c == '\'' {
        if !st.in_quotes {
            SplitScan { in_quotes: true, quote: c, ..st }
        } else if c == st.quote {
            SplitScan { in_quotes: false, ..st }
        } else {
            st
        }
    } else if c == '{' || c == '[' {
        let pos = if !st.in_quotes && st.braces == 0 && st.brackets == 0 && st.pos == 0 {
            i
        } else {
            st.pos
        };
        if st.in_quotes {
            SplitScan { pos, ..st }
        } else if c == '{' {
            SplitScan { braces: st.braces + 1, pos, ..st }
        } else {
            SplitScan { brackets: st.brackets + 1, pos, ..st }
        }
    } else if c == '}' && !st.in_quotes {
        SplitScan { braces: st.braces - 1, ..st }
    } else if c == ']' && !st.in_quotes {
        SplitScan { brackets: st.brackets - 1, ..st }
    } else {
        st
    }
}

/// The scan over the first `n` characters of `s`.
pub open spec fn split_scan(s: Seq<char>, n: int) -> SplitScan
    decreases n,
{
    if n <= 0 {
        SplitScan { in_quotes: false, quote: ' ', braces: 0, brackets: 0, pos: 0 }
    } else {
        split_step(split_scan(s, n - 1), n - 1, s[n - 1])
    }
}

/// Where the template starts: the character index of the first `{` or `[`
/// outside quotes and any open bracket, or 0 when none or at the start.
pub open spec fn template_start(s: Seq<char>) -> int {
    split_scan(s, s.len() as int).pos
}

/// The filter and template parts of `s`: split at the template's start,
/// taken as a byte offset into the text, each part trimmed; both must be
/// non-empty.
pub open spec fn split_parts(s: Seq<char>) -> Option<(Seq<char>, Seq<char>)> {
    let pos = template_start(s);
    if pos > 0 {
        let k = chars_within(s, pos as nat) as int;
        let f = trim_seq(s.take(k));
        let t = trim_seq(s.skip(k));
        if f.len() > 0 && t.len() > 0 {
            Some((f, t))
        } else {
            None
        }
    } else {
        None
    }
}

/// Split `filter {template}` or `filter [template]` at the first brace or
/// bracket outside quotes. The split offset is the character index of
/// that brace, applied to the text as a byte offset, so it must fall
/// between characters.
#[verifier::loop_isolation(false)]
pub fn split_filter_template_manually(input: &str) -> (r: Option<(String, String)>)
    requires
        input@.len() <= isize::MAX,
        crate::format_detector::is_byte_boundary(input@, template_start(input@) as nat),
    ensures
        match r {
            Some((f, t)) => split_parts(input@) == Some((f@, t@)),
            None => split_parts(input@) is None,
        },
{
    let v = chars_of(input);
    let mut in_quotes = false;
    let mut quote_char = ' ';
    let mut brace_count: isize = 0;
    let mut bracket_count: isize = 0;
    let mut pos: usize = 0;
    let mut i: usize = 0;
    while i < v.len()
        invariant
            v@ == input@,
            i <= v.len(),
            pos <= i,
            -(i as int) <= brace_count <= i,
            -(i as int) <= bracket_count <= i,
            split_scan(v@, i as int) == (SplitScan {
                in_quotes,
                quote: quote_char,
                braces: brace_count as int,
                brackets: bracket_count as int,
                pos: pos as int,
            }),
        decreases v.len() - i,
    {
        let c = v[i];
        if c == '"' || c == '\'' {
            if !in_quotes {
                in_quotes = true;
                quote_char = c;
            } else if c == quote_char {
                in_quotes = false;
            }
        } else if c == '{' || c == '[' {
            if !in_quotes && brace_count == 0 && bracket_count == 0 && pos == 0 {
                pos = i;
            }
            if !in_quotes {
                if c == '{' {
                    brace_count = brace_count + 1;
                } else {
                    bracket_count = bracket_count + 1;
                }
            }
        } else if c == '}' && !in_quotes {
            brace_count = brace_count - 1;
        } else if c == ']' && !in_quotes {
            bracket_count = bracket_count - 1;
        }
        i = i + 1;
    }
    if pos == 0 {
        return None;
    }
    let head = byte_prefix_exec(&v, pos);
    let k = head.len();
    proof {
        crate::format_detector::lemma_chars_within(v@, pos as nat);
        assert(head@ == v@.take(k as int));
    }
    let f = trim(&head);
    let tail = slice_vec(&v, k, v.len());
    let t = trim(&tail);
    proof {
        assert(tail@ == v@.skip(k as int));
    }
    if f.len() > 0 && t.len() > 0 {
        Some((string_of(&f), string_of(&t)))
    } else {
        None
    }
}

/// The parts of `v` between dots.
pub fn split_dots(v: &[char]) -> (r: Vec<String>)
    ensures
        parts_view(r@) == dot_parts(v@),
{
    let mut out: Vec<String> = Vec::new();
    let mut start: usize = 0;
    proof {
        assert(v@.skip(0) == v@);
        assert(parts_view(out@) + dot_parts(v@.skip(0)) =~= dot_parts(v@));
    }
    loop
        invariant
            start <= v.len(),
            parts_view(out@) + dot_parts(v@.skip(start as int)) == dot_parts(v@),
        decreases v.len() - start,
    {
        let ghost rest = v@.skip(start as int);
        proof {
            crate::text::lemma_first_index_of(rest, '.');
        }
        let mut i = start;
        while i < v.len() && v[i] != '.'
            invariant
                start <= i <= v.len(),
                forall|m: int| start <= m < i ==> v@[m] != '.',
            decreases v.len() - i,
        {
            i = i + 1;
        }
        let part = slice_vec(v, start, i);
        let ghost before = parts_view(out@);
        out.push(string_of(&part));
        if i == v.len() {
            proof {
                assert(forall|m: int| 0 <= m < rest.len() ==> rest[m] == v@[start + m]);
                assert(crate::text::first_index_of(rest, '.') is None);
                assert(part@ == rest);
                assert(parts_view(out@) =~= before.push(rest));
                assert(parts_view(out@) =~= dot_parts(v@));
            }
            return out;
        }
        proof {
            let j = (i - start) as int;
            assert(rest[j] == '.');
            match crate::text::first_index_of(rest, '.') {
                Some(x) => {
                    if x < j {
                        assert(rest[x] == v@[start + x]);
                    }
                    if x > j {
                        assert(rest[j] != '.');
                    }
                    assert(x == j);
                },
                None => {
                    assert(rest[j] != '.');
                },
            }
            assert(part@ == rest.take(j));
            assert(rest.skip(j + 1) == v@.skip(i + 1));
            assert(parts_view(out@) =~= before.push(part@));
            assert(dot_parts(rest) == seq![rest.take(j)] + dot_parts(v@.skip(i + 1)));
            assert(parts_view(out@) + dot_parts(v@.skip(i + 1)) =~= before + dot_parts(rest));
        }
        start = i + 1;
    }
}

/// `name` without one trailing `?`.
pub open spec fn without_question(name: Seq<char>) -> Seq<char> {
    if name.len() > 0 && name.last() == '?' {
        name.drop_last()
    } else {
        name
    }
}

/// A field name for a truthy check: an optional trailing `?` dropped, the
/// rest split on dots.
pub fn parse_field_name_for_truthy(name: &str) -> (r: FieldPath)
    ensures
        r@ == dot_parts(without_question(name@)),
{
    let v = chars_of(name);
    let base = if v.len() > 0 && v[v.len() - 1] == '?' {
        slice_vec(&v, 0, v.len() - 1)
    } else {
        slice_vec(&v, 0, v.len())
    };
    proof {
        if v@.len() > 0 && v@.last() == '?' {
            assert(base@ == v@.drop_last());
        } else {
            assert(base@ == v@);
        }
    }
    FieldPath::new(split_dots(&base))
}

/// The path a simple field name names: `0` is the source, `$0`; another
/// index above zero stays one component; anything else splits on dots,
/// each part trimmed.
pub open spec fn simple_path(name: Seq<char>) -> Seq<Seq<char>> {
    if name == seq!['0'] {
        seq![seq!['$', '0']]
    } else if index_of(name) matches Some(n) && n > 0 {
        seq![name]
    } else {
        dot_parts(name).map_values(|p: Seq<char>| trim_seq(p))
    }
}

pub fn parse_field_name_simple(field_name: &str) -> (r: FieldPath)
    ensures
        r@ == simple_path(field_name@),
{
    let v = chars_of(field_name);
    proof {
        assert(['0']@ == seq!['0']);
    }
    if crate::filter::words_equal(&v, &['0']) {
        let mut parts: Vec<String> = Vec::new();
        parts.push(crate::record::chars_string(&['$', '0']));
        proof {
            assert(['$', '0']@ == seq!['$', '0']);
            assert(parts_view(parts@) =~= seq![seq!['$', '0']]);
        }
        return FieldPath::new(parts);
    }
    match parse_index(field_name) {
        Some(n) => {
            if n > 0 {
                let mut parts: Vec<String> = Vec::new();
                parts.push(string_of(&v));
                proof {
                    assert(parts_view(parts@) =~= seq![field_name@]);
                }
                return FieldPath::new(parts);
            }
        },
        None => {},
    }
    let split = split_dots(&v);
    let mut parts: Vec<String> = Vec::new();
    let mut i: usize = 0;
    while i < split.len()
        invariant
            i <= split.len(),
            parts_view(split@) == dot_parts(v@),
            parts@.len() == i,
            forall|k: int| 0 <= k < i ==> (#[trigger] parts@[k])@ == trim_seq(split@[k]@),
        decreases split.len() - i,
    {
        let pv = chars_of(split[i].as_str());
        parts.push(string_of(&trim(&pv)));
        i = i + 1;
    }
    proof {
        assert(parts_view(parts@) =~= dot_parts(v@).map_values(|p: Seq<char>| trim_seq(p)));
    }
    FieldPath::new(parts)
}

/// A field name as a manual template scan reads it: `0` is the source,
/// `$0`; an index `n` above zero is the positional field `field_<n-1>`;
/// anything else splits on dots, each part trimmed.
pub open spec fn manual_field_path(name: Seq<char>) -> Seq<Seq<char>> {
    let dotted = dot_parts(name).map_values(|p: Seq<char>| trim_seq(p));
    if name == seq!['0'] {
        seq![seq!['$', '0']]
    } else {
        match index_of(name) {
            Some(n) => if n > 0 {
                seq![seq!['f', 'i', 'e', 'l', 'd', '_'] + decimal_text((n - 1) as nat)]
            } else {
                dotted
            },
            None => dotted,
        }
    }
}

/// The first character of a `$name` variable: a letter or `_`.
pub open spec fn var_start(c: char) -> bool {
    alphabetic(c) || c == '_'
}

/// A later character of a `$name` variable: a letter, a number, `_` or
/// `.`.
pub open spec fn var_char(c: char) -> bool {
    alphabetic(c) || numeric(c) || c == '_' || c == '.'
}

/// The end of the run of variable characters of `s` from `k`.
pub open spec fn var_run_end(s: Seq<char>, k: int) -> int
    decreases s.len() - k,
{
    if 0 <= k < s.len() && var_char(s[k]) {
        var_run_end(s, k + 1)
    } else {
        k
    }
}

/// The name inside `${…}` read from `p`, with `depth` braces open, and
/// where reading continues: nested braces are part of the name; the brace
/// that closes the first ends it; without one, the name runs to the end.
pub open spec fn brace_scan(s: Seq<char>, p: int, depth: nat, name: Seq<char>) -> (Seq<char>, int)
    decreases s.len() - p,
{
    if p < 0 || p >= s.len() {
        (name, s.len() as int)
    } else if s[p] == '{' {
        brace_scan(s, p + 1, depth + 1, name.push('{'))
    } else if s[p] == '}' {
        if depth <= 1 {
            (name, p + 1)
        } else {
            brace_scan(s, p + 1, (depth - 1) as nat, name.push('}'))
        }
    } else {
        brace_scan(s, p + 1, depth, name.push(s[p]))
    }
}

pub proof fn lemma_var_run_end(s: Seq<char>, k: int)
    requires
        0 <= k <= s.len(),
    ensures
        k <= var_run_end(s, k) <= s.len(),
    decreases s.len() - k,
{
    if k < s.len() && var_char(s[k]) {
        lemma_var_run_end(s, k + 1);
    }
}

pub proof fn lemma_brace_scan(s: Seq<char>, p: int, depth: nat, name: Seq<char>)
    requires
        0 <= p <= s.len(),
    ensures
        p <= brace_scan(s, p, depth, name).1 <= s.len(),
    decreases s.len() - p,
{
    if p < s.len() {
        if s[p] == '{' {
            lemma_brace_scan(s, p + 1, depth + 1, name.push('{'));
        } else if s[p] == '}' {
            if depth > 1 {
                lemma_brace_scan(s, p + 1, (depth - 1) as nat, name.push('}'));
            }
        } else {
            lemma_brace_scan(s, p + 1, depth, name.push(s[p]));
        }
    }
}

/// `items` with the pending literal `text` added when there is one.
pub open spec fn flush(items: Seq<TItem>, text: Seq<char>) -> Seq<TItem> {
    if text.len() > 0 {
        items.push(TItem::Lit(text))
    } else {
        items
    }
}

/// The template pieces of `s` from `i`, after the pieces `items` and the
/// pending literal `text`. `${name}` and `$name` are fields; a `$` that
/// starts neither is literal.
pub open spec fn manual_scan(s: Seq<char>, i: int, items: Seq<TItem>, text: Seq<char>) -> Seq<TItem>
    decreases s.len() - i,
{
    if i < 0 || i >= s.len() {
        flush(items, text)
    } else if s[i] == '$' {
        let before = flush(items, text);
        if i + 1 < s.len() && s[i + 1] == '{' {
            proof {
                lemma_brace_scan(s, i + 2, 1, Seq::empty());
            }
            let (name, j) = brace_scan(s, i + 2, 1, Seq::empty());
            manual_scan(
                s,
                j,
                if name.len() > 0 {
                    before.push(TItem::Field(manual_field_path(name)))
                } else {
                    before
                },
                Seq::empty(),
            )
        } else if i + 1 < s.len() && var_start(s[i + 1]) {
            proof {
                lemma_var_run_end(s, i + 2);
            }
            let k = var_run_end(s, i + 2);
            manual_scan(s, k, before.push(TItem::Field(manual_field_path(s.subrange(i + 1, k)))), Seq::empty())
        } else {
            manual_scan(s, i + 1, before, seq!['$'])
        }
    } else {
        manual_scan(s, i + 1, items, text.push(s[i]))
    }
}

/// The template a manual scan reads from `content`.
pub open spec fn manual_template(content: Seq<char>) -> Seq<TItem> {
    manual_scan(content, 0, Seq::empty(), Seq::empty())
}

/// The views of `items`.
pub open spec fn items_view(items: Seq<TemplateItem>) -> Seq<TItem> {
    items.map_values(|it: TemplateItem| it@)
}

/// The path a manual scan reads from a field name.
fn manual_field_name(name: &[char]) -> (r: FieldPath)
    ensures
        r@ == manual_field_path(name@),
{
    proof {
        assert(['0']@ == seq!['0']);
    }
    if crate::filter::words_equal(name, &['0']) {
        let mut parts: Vec<String> = Vec::new();
        parts.push(chars_string(&['$', '0']));
        proof {
            assert(['$', '0']@ == seq!['$', '0']);
            assert(parts_view(parts@) =~= seq![seq!['$', '0']]);
        }
        return FieldPath::new(parts);
    }
    let text = string_of(name);
    match parse_index(text.as_str()) {
        Some(n) => {
            if n > 0 {
                let mut field = chars_string(&['f', 'i', 'e', 'l', 'd', '_']);
                field.append(usize_text(n - 1).as_str());
                let mut parts: Vec<String> = Vec::new();
                parts.push(field);
                proof {
                    assert(['f', 'i', 'e', 'l', 'd', '_']@ == seq!['f', 'i', 'e', 'l', 'd', '_']);
                    assert(parts_view(parts@) =~= seq![seq!['f', 'i', 'e', 'l', 'd', '_'] + decimal_text((n - 1) as nat)]);
                }
                return FieldPath::new(parts);
            }
        },
        None => {},
    }
    let split = split_dots(name);
    let mut parts: Vec<String> = Vec::new();
    let mut i: usize = 0;
    while i < split.len()
        invariant
            i <= split.len(),
            parts_view(split@) == dot_parts(name@),
            parts@.len() == i,
            forall|k: int| 0 <= k < i ==> (#[trigger] parts@[k])@ == trim_seq(split@[k]@),
        decreases split.len() - i,
    {
        let pv = chars_of(split[i].as_str());
        parts.push(string_of(&trim(&pv)));
        i = i + 1;
    }
    proof {
        assert(parts_view(parts@) =~= dot_parts(name@).map_values(|p: Seq<char>| trim_seq(p)));
    }
    FieldPath::new(parts)
}

/// The name inside `${…}` whose content starts at `p`, and where reading
/// continues.
fn brace_scan_exec(s: &Vec<char>, p: usize) -> (r: (Vec<char>, usize))
    requires
        1 <= p <= s.len(),
    ensures
        (r.0@, r.1 as int) == brace_scan(s@, p as int, 1, Seq::empty()),
{
    let mut name: Vec<char> = Vec::new();
    let mut depth: usize = 1;
    let mut k: usize = p;
    while k < s.len()
        invariant
            1 <= p <= k <= s.len(),
            1 <= depth <= k - p + 1,
            brace_scan(s@, p as int, 1, Seq::empty()) == brace_scan(s@, k as int, depth as nat, name@),
        decreases s.len() - k,
    {
        let c = s[k];
        if c == '{' {
            depth = depth + 1;
            name.push(c);
        } else if c == '}' {
            if depth <= 1 {
                return (name, k + 1);
            }
            depth = depth - 1;
            name.push(c);
        } else {
            name.push(c);
        }
        k = k + 1;
    }
    (name, s.len())
}

/// The end of the run of variable characters of `s` from `k`.
fn var_run_end_exec(s: &Vec<char>, k: usize) -> (r: usize)
    requires
        k <= s.len(),
    ensures
        r as int == var_run_end(s@, k as int),
{
    let mut e = k;
    while e < s.len() && (is_alphabetic(s[e]) || char_is_numeric(s[e]) || s[e] == '_' || s[e] == '.')
        invariant
            k <= e <= s.len(),
            var_run_end(s@, k as int) == var_run_end(s@, e as int),
        decreases s.len() - e,
    {
        e = e + 1;
    }
    e
}

/// Add the pending literal `text`, if any, to `items`, and clear it.
fn flush_exec(items: &mut Vec<TemplateItem>, text: &mut Vec<char>)
    ensures
        items_view(final(items)@) == flush(items_view(old(items)@), old(text)@),
        final(text)@.len() == 0,
{
    if text.len() > 0 {
        let ghost before = items_view(items@);
        items.push(TemplateItem::Literal(string_of(text.as_slice())));
        proof {
            assert(items_view(items@) =~= before.push(TItem::Lit(old(text)@)));
        }
        *text = Vec::new();
    }
}

impl DSLParser {
    /// Read a template's content by hand: `${name}` (braces may nest) and
    /// `$name` are fields, where `0` names the source and an index above
    /// zero the positional field before it; everything else is literal
    /// text. Reading always succeeds.
    pub fn parse_template_content_manually(content: &str) -> (r: Result<Template, String>)
        ensures
            r matches Ok(t) && t@ == manual_template(content@),
    {
        let s = chars_of(content);
        let mut items: Vec<TemplateItem> = Vec::new();
        let mut text: Vec<char> = Vec::new();
        let mut i: usize = 0;
        proof {
            assert(items_view(items@) =~= Seq::<TItem>::empty());
            assert(text@ =~= Seq::<char>::empty());
        }
        while i < s.len()
            invariant
                i <= s.len(),
                manual_scan(s@, i as int, items_view(items@), text@) == manual_template(content@),
                s@ == content@,
            decreases s.len() - i,
        {
            let ghost iv0 = items_view(items@);
            let ghost t0 = text@;
            let ghost i0 = i as int;
            if s[i] == '$' {
                flush_exec(&mut items, &mut text);
                assert(text@ =~= Seq::<char>::empty());
                if i + 1 < s.len() && s[i + 1] == '{' {
                    proof {
                        lemma_brace_scan(s@, i + 2, 1, Seq::empty());
                    }
                    let (name, j) = brace_scan_exec(&s, i + 2);
                    if name.len() > 0 {
                        let ghost before = items_view(items@);
                        let f = manual_field_name(name.as_slice());
                        items.push(TemplateItem::Field(f));
                        proof {
                            assert(items_view(items@) =~= before.push(TItem::Field(manual_field_path(name@))));
                        }
                    }
                    i = j;
                    assert(manual_scan(s@, i0, iv0, t0) == manual_scan(s@, i as int, items_view(items@), text@));
                } else if i + 1 < s.len() && (is_alphabetic(s[i + 1]) || s[i + 1] == '_') {
                    proof {
                        lemma_var_run_end(s@, i + 2);
                    }
                    let k = var_run_end_exec(&s, i + 2);
                    let name = slice_vec(&s, i + 1, k);
                    let ghost before = items_view(items@);
                    let f = manual_field_name(name.as_slice());
                    items.push(TemplateItem::Field(f));
                    proof {
                        assert(items_view(items@) =~= before.push(TItem::Field(manual_field_path(s@.subrange(i + 1, k as int)))));
                    }
                    i = k;
                    assert(manual_scan(s@, i0, iv0, t0) == manual_scan(s@, i as int, items_view(items@), text@));
                } else {
                    text.push('$');
                    proof {
                        assert(text@ =~= seq!['$']);
                    }
                    i = i + 1;
                    assert(manual_scan(s@, i0, iv0, t0) == manual_scan(s@, i as int, items_view(items@), text@));
                }
            } else {
                text.push(s[i]);
                i = i + 1;
                assert(manual_scan(s@, i0, iv0, t0) == manual_scan(s@, i as int, items_view(items@), text@));
            }
        }
        flush_exec(&mut items, &mut text);
        let t = Template { items };
        proof {
            assert(t@ =~= items_view(t.items@));
        }
        Ok(t)
    }
}

// ---------------------------------------------------------------------
// Fallback strategies, tried in turn when an expression is read by hand.

/// `s` without its first and last characters.
pub open spec fn content_of(s: Seq<char>) -> Seq<char> {
    s.subrange(1, s.len() - 1)
}

/// The message for text holding `$` outside a template.
pub open spec fn bare_message() -> Seq<char> {
    "Bare interpolated text not allowed. Use [Hello ${name}] or {Hello ${name}} instead"@
}

/// A result holding only the template `t`.
pub open spec fn template_result(t: Seq<TItem>) -> DslOut {
    DslOut::Parsed(None, Some(t), None)
}

/// What `try_simple_template_patterns` reads from `s`: `{…}` with content
/// is a template, read by hand when it holds `$`, else one literal;
/// `${name}` and `$name` without spaces are one field, `$` followed by
/// digits or nothing is literal; other text holding `$` is refused unless
/// it starts a template.
pub open spec fn simple_template(s: Seq<char>) -> DslOut {
    let n = s.len();
    if n >= 2 && s[0] == '{' && s[n - 1] == '}' && trim_seq(content_of(s)).len() > 0 {
        let c = content_of(s);
        if c.contains('$') {
            template_result(manual_template(c))
        } else {
            template_result(seq![TItem::Lit(c)])
        }
    } else {
        let dollar = n >= 1 && s[0] == '$' && !s.contains(' ');
        let braced_var = n >= 2 && s[1] == '{' && s[n - 1] == '}';
        if dollar && braced_var && n > 3 {
            template_result(seq![TItem::Field(simple_path(s.subrange(2, n - 1)))])
        } else if dollar && !braced_var {
            let name = s.skip(1);
            if name.len() > 0 && !all_digits(name) {
                template_result(seq![TItem::Field(simple_path(name))])
            } else {
                template_result(seq![TItem::Lit(s)])
            }
        } else if s.contains('$') && !(n >= 1 && (s[0] == '{' || s[0] == '[')) {
            DslOut::Failed(bare_message())
        } else {
            DslOut::Failed("Not a simple template pattern"@)
        }
    }
}

/// A result holding only `t` as a template.
fn template_only_result(items: Vec<TemplateItem>) -> (r: ParsedDSL)
    ensures
        dsl_view(r) == template_result((Template { items })@),
{
    let mut result = ParsedDSL::new();
    result.template = Some(Template { items });
    result
}

/// One template piece.
fn one_item(item: TemplateItem) -> (r: Vec<TemplateItem>)
    ensures
        (Template { items: r })@ == seq![item@],
{
    let mut r: Vec<TemplateItem> = Vec::new();
    r.push(item);
    proof {
        assert((Template { items: r })@ =~= seq![item@]);
    }
    r
}

/// Whether every character of `v` is an ASCII digit.
fn all_digits_exec(v: &[char]) -> (r: bool)
    ensures
        r == all_digits(v@),
{
    let mut i: usize = 0;
    while i < v.len()
        invariant
            i <= v.len(),
            forall|k: int| 0 <= k < i ==> is_digit(#[trigger] v@[k]),
        decreases v.len() - i,
    {
        if !('0' <= v[i] && v[i] <= '9') {
            return false;
        }
        i = i + 1;
    }
    true
}

/// Read simple template shapes that the grammar may not take.
pub fn try_simple_template_patterns(input: &str) -> (r: Result<ParsedDSL, String>)
    ensures
        match r {
            Ok(d) => simple_template(input@) == dsl_view(d),
            Err(m) => simple_template(input@) == DslOut::Failed(m@),
        },
{
    let v = chars_of(input);
    let n = v.len();
    if n >= 2 && v[0] == '{' && v[n - 1] == '}' {
        let c = slice_vec(&v, 1, n - 1);
        if trim(&c).len() > 0 {
            let content = string_of(&c);
            if has_char(&c, '$') {
                match DSLParser::parse_template_content_manually(content.as_str()) {
                    Ok(t) => return Ok(template_only_result(t.items)),
                    Err(e) => return Err(e),
                }
            }
            return Ok(template_only_result(one_item(TemplateItem::Literal(content))));
        }
    }
    let dollar = n >= 1 && v[0] == '$' && !has_char(&v, ' ');
    let braced_var = n >= 2 && v[1] == '{' && v[n - 1] == '}';
    if dollar && braced_var && n > 3 {
        let name = string_of(&slice_vec(&v, 2, n - 1));
        let path = parse_field_name_simple(name.as_str());
        return Ok(template_only_result(one_item(TemplateItem::Field(path))));
    }
    if dollar && !braced_var {
        let name = slice_vec(&v, 1, n);
        assert(name@ == v@.skip(1));
        if name.len() > 0 && !all_digits_exec(&name) {
            let path = parse_field_name_simple(string_of(&name).as_str());
            return Ok(template_only_result(one_item(TemplateItem::Field(path))));
        }
        return Ok(template_only_result(one_item(TemplateItem::Literal(string_of(&v)))));
    }
    if has_char(&v, '$') && !(n >= 1 && (v[0] == '{' || v[0] == '[')) {
        proof {
            reveal_strlit("Bare interpolated text not allowed. Use [Hello ${name}] or {Hello ${name}} instead");
        }
        return Err(String::from_str("Bare interpolated text not allowed. Use [Hello ${name}] or {Hello ${name}} instead"));
    }
    proof {
        reveal_strlit("Not a simple template pattern");
    }
    Err(String::from_str("Not a simple template pattern"))
}

/// `s` is wrapped in one kind of quote.
pub open spec fn quoted(s: Seq<char>) -> bool {
    s.len() >= 1 && ((s[0] == '"' && s.last() == '"') || (s[0] == '\'' && s.last() == '\''))
}

/// Characters that never stand in a bare field selector.
pub open spec fn operator_char(c: char) -> bool {
    c == ' ' || c == '$' || c == '{' || c == '}' || c == '!' || c == '=' || c == '>' || c == '<'
        || c == '&' || c == '|'
}

/// A character of a bare field selector.
pub open spec fn selector_char(c: char) -> bool {
    var_char(c) && !operator_char(c)
}

/// What `try_as_field_selector` reads from `s`: quoted text is a path of
/// its dot-separated parts; so is text of letters, numbers, `_` and `.`
/// alone.
pub open spec fn selector_fallback(s: Seq<char>) -> DslOut {
    if quoted(s) {
        DslOut::Parsed(None, None, Some(dot_parts(content_of(s))))
    } else if s.len() > 0 && (forall|k: int| 0 <= k < s.len() ==> #[trigger] selector_char(s[k])) {
        DslOut::Parsed(None, None, Some(dot_parts(s)))
    } else {
        DslOut::Failed("Not a field selector"@)
    }
}

/// A quote alone, which the field selector strategy cannot take apart.
pub open spec fn lone_quote(s: Seq<char>) -> bool {
    s.len() == 1 && (s[0] == '"' || s[0] == '\'')
}

/// A result holding only the field selector `p`.
fn selector_result(p: FieldPath) -> (r: ParsedDSL)
    ensures
        dsl_view(r) == DslOut::Parsed(None, None, Some(p@)),
{
    let mut result = ParsedDSL::new();
    result.field_selector = Some(p);
    result
}

/// Read `input` as a field selector: quoted, or a bare dotted name.
pub fn try_as_field_selector(input: &str) -> (r: Result<ParsedDSL, String>)
    requires
        !lone_quote(input@),
    ensures
        match r {
            Ok(d) => selector_fallback(input@) == dsl_view(d),
            Err(m) => selector_fallback(input@) == DslOut::Failed(m@),
        },
{
    let v = chars_of(input);
    let n = v.len();
    if n >= 1 && ((v[0] == '"' && v[n - 1] == '"') || (v[0] == '\'' && v[n - 1] == '\'')) {
        let c = slice_vec(&v, 1, n - 1);
        return Ok(selector_result(FieldPath::new(split_dots(&c))));
    }
    proof {
        reveal_strlit("Not a field selector");
    }
    if n == 0 {
        return Err(String::from_str("Not a field selector"));
    }
    let mut i: usize = 0;
    while i < n
        invariant
            i <= n,
            n == v.len(),
            v@ == input@,
            !quoted(input@),
            forall|k: int| 0 <= k < i ==> #[trigger] selector_char(v@[k]),
        decreases n - i,
    {
        let c = v[i];
        let word = is_alphabetic(c) || char_is_numeric(c) || c == '_' || c == '.';
        let op = c == ' ' || c == '$' || c == '{' || c == '}' || c == '!' || c == '=' || c == '>' || c == '<'
            || c == '&' || c == '|';
        if !word || op {
            assert(!selector_char(v@[i as int]));
            assert(!quoted(input@));
            return Err(String::from_str("Not a field selector"));
        }
        assert(selector_char(v@[i as int]));
        i = i + 1;
    }
    Ok(selector_result(FieldPath::new(split_dots(&v))))
}

/// The path a truthy check names: `name` without one trailing `?`, split on
/// dots.
pub open spec fn truthy_path(name: Seq<char>) -> Seq<Seq<char>> {
    dot_parts(without_question(name))
}

/// The message for a term that is neither a comparison nor a truthy check.
pub open spec fn term_message(t: Seq<char>) -> Seq<char> {
    "Cannot parse '"@ + t + "' as boolean term - use 'field?' for truthy check or add comparison operator"@
}

/// The filter of the expression `t` when it has operators and parses to
/// one.
pub open spec fn term_filter(t: Seq<char>) -> Option<FExpr> {
    if has_filter_operator(t) {
        match dsl_outcome(t) {
            DslOut::Parsed(f, _, _) => f,
            DslOut::Failed(_) => None,
        }
    } else {
        None
    }
}

/// What `try_parse_single_boolean_term` reads from `s`, trimmed: `!name` is
/// the negated truthy check of `name`; text with operators that parses to a
/// filter is that filter; `name?` is a truthy check; a bare name is
/// refused.
pub open spec fn boolean_term(s: Seq<char>) -> Result<FExpr, Seq<char>> {
    let t = trim_seq(s);
    if t.len() > 0 && t[0] == '!' {
        Ok(FExpr::Not(Box::new(FExpr::Truthy(truthy_path(trim_seq(t.skip(1)))))))
    } else {
        match term_filter(t) {
            Some(f) => Ok(f),
            None => if t.len() > 0 && t.last() == '?' {
                Ok(FExpr::Truthy(truthy_path(t.drop_last())))
            } else {
                Err(term_message(t))
            },
        }
    }
}

/// Read one term of a boolean expression: a negated or explicit truthy
/// check, or a filter with operators.
pub fn try_parse_single_boolean_term(term: &str) -> (r: Result<FilterExpr, String>)
    ensures
        match r {
            Ok(f) => boolean_term(term@) == Ok::<FExpr, Seq<char>>(f@),
            Err(m) => boolean_term(term@) == Err::<FExpr, Seq<char>>(m@),
        },
{
    let v = chars_of(term);
    let t = trim(&v);
    if t.len() > 0 && t[0] == '!' {
        let rest = slice_vec(&t, 1, t.len());
        assert(rest@ == t@.skip(1));
        let field = string_of(&trim(&rest));
        let path = parse_field_name_for_truthy(field.as_str());
        let e = FilterExpr::FieldTruthy(path);
        assert(e@ == FExpr::Truthy(truthy_path(trim_seq(t@.skip(1)))));
        let ne = FilterExpr::Not(Box::new(e));
        assert(ne@ == FExpr::Not(Box::new(e@)));
        return Ok(ne);
    }
    let text = string_of(&t);
    if contains_filter_operators(text.as_str()) {
        match DSLParser::parse_dsl(text.as_str()) {
            Ok(result) => match result.filter {
                Some(f) => return Ok(f),
                None => {},
            },
            Err(_) => {},
        }
    }
    if t.len() > 0 && t[t.len() - 1] == '?' {
        let name = slice_vec(&t, 0, t.len() - 1);
        assert(name@ == t@.drop_last());
        let path = parse_field_name_for_truthy(string_of(&name).as_str());
        return Ok(FilterExpr::FieldTruthy(path));
    }
    let mut m = String::from_str("Cannot parse '");
    m.append(text.as_str());
    m.append("' as boolean term - use 'field?' for truthy check or add comparison operator");
    proof {
        reveal_strlit("Cannot parse '");
        reveal_strlit("' as boolean term - use 'field?' for truthy check or add comparison operator");
        assert(m@ =~= term_message(t@));
    }
    Err(m)
}

/// Index of the first occurrence of `sep` in `s` at or after `from`.
pub open spec fn first_at(s: Seq<char>, sep: Seq<char>, from: int) -> Option<int>
    decreases s.len() + 1 - from,
{
    if from < 0 || from + sep.len() > s.len() {
        None
    } else if occurs_at(s, sep, from) {
        Some(from)
    } else {
        first_at(s, sep, from + 1)
    }
}

/// An occurrence `first_at` finds is one, at or after `from`.
pub proof fn lemma_first_at(s: Seq<char>, sep: Seq<char>, from: int)
    ensures
        first_at(s, sep, from) matches Some(i) ==> from <= i && occurs_at(s, sep, i),
    decreases s.len() + 1 - from,
{
    if !(from < 0 || from + sep.len() > s.len()) && !occurs_at(s, sep, from) {
        lemma_first_at(s, sep, from + 1);
    }
}

/// `s` split at `sep` into exactly two trimmed parts, as `str::split`
/// splits, or `None` when it gives another number of parts.
pub open spec fn split_two(s: Seq<char>, sep: Seq<char>) -> Option<(Seq<char>, Seq<char>)> {
    match first_at(s, sep, 0) {
        Some(i) => if first_at(s, sep, i + sep.len()) is None {
            Some((trim_seq(s.take(i)), trim_seq(s.skip(i + sep.len()))))
        } else {
            None
        },
        None => None,
    }
}

/// The first occurrence of `sep` in `v` at or after `from`.
fn first_at_exec(v: &[char], sep: &[char], from: usize) -> (r: Option<usize>)
    requires
        sep.len() > 0,
    ensures
        match r {
            Some(i) => first_at(v@, sep@, from as int) == Some(i as int),
            None => first_at(v@, sep@, from as int) is None,
        },
{
    let mut i = from;
    while i <= v.len() && sep.len() <= v.len() - i
        invariant
            from <= i,
            sep.len() > 0,
            first_at(v@, sep@, from as int) == first_at(v@, sep@, i as int),
        decreases v.len() + 1 - i,
    {
        if matches_at(v, sep, i) {
            return Some(i);
        }
        i = i + 1;
    }
    None
}

/// `v` split at `sep` into exactly two trimmed parts.
fn split_two_exec(v: &[char], sep: &[char]) -> (r: Option<(Vec<char>, Vec<char>)>)
    requires
        sep.len() > 0,
    ensures
        match r {
            Some((a, b)) => split_two(v@, sep@) == Some((a@, b@)),
            None => split_two(v@, sep@) is None,
        },
{
    match first_at_exec(v, sep, 0) {
        Some(i) => {
            proof {
                lemma_first_at(v@, sep@, 0);
                assert(occurs_at(v@, sep@, i as int));
                assert(i + sep@.len() <= v@.len());
            }
            assert(i + sep.len() <= v.len());
            let after = i + sep.len();
            match first_at_exec(v, sep, after) {
                Some(_) => None,
                None => {
                    let a = slice_vec(v, 0, i);
                    let b = slice_vec(v, i + sep.len(), v.len());
                    assert(a@ == v@.take(i as int));
                    assert(b@ == v@.skip(i + sep.len()));
                    Some((trim(&a), trim(&b)))
                },
            }
        },
        None => None,
    }
}

/// What a two-term `&&` (`and`) or `||` expression reads to.
pub open spec fn pair_expr(s: Seq<char>, sep: Seq<char>, and: bool) -> Result<FExpr, Seq<char>> {
    match split_two(s, sep) {
        None => Err(
            if and {
                "Complex AND expressions not supported"@
            } else {
                "Complex OR expressions not supported"@
            },
        ),
        Some((l, r)) => match boolean_term(l) {
            Err(m) => Err(m),
            Ok(a) => match boolean_term(r) {
                Err(m) => Err(m),
                Ok(b) => Ok(
                    if and {
                        FExpr::And(Box::new(a), Box::new(b))
                    } else {
                        FExpr::Or(Box::new(a), Box::new(b))
                    },
                ),
            },
        },
    }
}

/// What `try_boolean_with_truthy_fields` reads from `s`: two terms joined
/// by `&&`, else by `||`; text without either is refused.
pub open spec fn boolean_fallback(s: Seq<char>) -> Result<FExpr, Seq<char>> {
    if contains_seq(s, seq!['&', '&']) {
        pair_expr(s, seq!['&', '&'], true)
    } else if contains_seq(s, seq!['|', '|']) {
        pair_expr(s, seq!['|', '|'], false)
    } else {
        Err("Not a boolean expression with explicit operators"@)
    }
}

/// A result holding only the filter `f`.
pub open spec fn filter_result(f: FExpr) -> DslOut {
    DslOut::Parsed(Some(f), None, None)
}

/// A result holding only the filter `f`.
fn filter_only_result(f: FilterExpr) -> (r: ParsedDSL)
    ensures
        dsl_view(r) == filter_result(f@),
{
    let mut result = ParsedDSL::new();
    result.filter = Some(f);
    result
}

/// Read the two terms of `input` around `sep` as one expression.
fn try_parse_pair(input: &str, and: bool) -> (r: Result<FilterExpr, String>)
    ensures
        match r {
            Ok(f) => pair_expr(input@, if and { seq!['&', '&'] } else { seq!['|', '|'] }, and) == Ok::<FExpr, Seq<char>>(f@),
            Err(m) => pair_expr(input@, if and { seq!['&', '&'] } else { seq!['|', '|'] }, and) == Err::<FExpr, Seq<char>>(m@),
        },
{
    let v = chars_of(input);
    let sep: [char; 2] = if and {
        ['&', '&']
    } else {
        ['|', '|']
    };
    proof {
        assert(['&', '&']@ == seq!['&', '&']);
        assert(['|', '|']@ == seq!['|', '|']);
    }
    match split_two_exec(&v, &sep) {
        None => {
            if and {
                proof {
                    reveal_strlit("Complex AND expressions not supported");
                }
                Err(String::from_str("Complex AND expressions not supported"))
            } else {
                proof {
                    reveal_strlit("Complex OR expressions not supported");
                }
                Err(String::from_str("Complex OR expressions not supported"))
            }
        },
        Some((l, r)) => {
            let left = try_parse_single_boolean_term(string_of(&l).as_str())?;
            let right = try_parse_single_boolean_term(string_of(&r).as_str())?;
            if and {
                Ok(FilterExpr::And(Box::new(left), Box::new(right)))
            } else {
                Ok(FilterExpr::Or(Box::new(left), Box::new(right)))
            }
        },
    }
}

/// Read `input` as two terms joined by `&&`.
pub fn try_parse_and_expression(input: &str) -> (r: Result<ParsedDSL, String>)
    ensures
        match r {
            Ok(d) => pair_expr(input@, seq!['&', '&'], true) matches Ok(f) && dsl_view(d) == filter_result(f),
            Err(m) => pair_expr(input@, seq!['&', '&'], true) == Err::<FExpr, Seq<char>>(m@),
        },
{
    let f = try_parse_pair(input, true)?;
    Ok(filter_only_result(f))
}

/// Read `input` as two terms joined by `||`.
pub fn try_parse_or_expression(input: &str) -> (r: Result<ParsedDSL, String>)
    ensures
        match r {
            Ok(d) => pair_expr(input@, seq!['|', '|'], false) matches Ok(f) && dsl_view(d) == filter_result(f),
            Err(m) => pair_expr(input@, seq!['|', '|'], false) == Err::<FExpr, Seq<char>>(m@),
        },
{
    let f = try_parse_pair(input, false)?;
    Ok(filter_only_result(f))
}

/// Read `input` as a boolean expression with an explicit `&&` or `||`.
pub fn try_boolean_with_truthy_fields(input: &str) -> (r: Result<ParsedDSL, String>)
    ensures
        match r {
            Ok(d) => boolean_fallback(input@) matches Ok(f) && dsl_view(d) == filter_result(f),
            Err(m) => boolean_fallback(input@) == Err::<FExpr, Seq<char>>(m@),
        },
{
    let v = chars_of(input);
    proof {
        assert(['&', '&']@ == seq!['&', '&']);
        assert(['|', '|']@ == seq!['|', '|']);
    }
    if contains(&v, &['&', '&']) {
        return try_parse_and_expression(input);
    }
    if contains(&v, &['|', '|']) {
        return try_parse_or_expression(input);
    }
    proof {
        reveal_strlit("Not a boolean expression with explicit operators");
    }
    Err(String::from_str("Not a boolean expression with explicit operators"))
}

/// The comparison a word names in a simple filter.
pub open spec fn simple_op(w: Seq<char>) -> Option<ComparisonOp> {
    if w == seq!['=', '='] {
        Some(ComparisonOp::Equal)
    } else if w == seq!['!', '='] {
        Some(ComparisonOp::NotEqual)
    } else if w == seq!['>'] {
        Some(ComparisonOp::GreaterThan)
    } else if w == seq!['>', '='] {
        Some(ComparisonOp::GreaterThanOrEqual)
    } else if w == seq!['<'] {
        Some(ComparisonOp::LessThan)
    } else if w == seq!['<', '='] {
        Some(ComparisonOp::LessThanOrEqual)
    } else if w == seq!['~'] || w == seq!['*', '='] {
        Some(ComparisonOp::Contains)
    } else if w == seq!['^', '='] {
        Some(ComparisonOp::StartsWith)
    } else if w == seq!['$', '='] {
        Some(ComparisonOp::EndsWith)
    } else {
        None
    }
}

/// `ws` joined with a space between each two.
pub open spec fn spaced(ws: Seq<Seq<char>>) -> Seq<char>
    decreases ws.len(),
{
    if ws.len() == 0 {
        Seq::empty()
    } else if ws.len() == 1 {
        ws[0]
    } else {
        spaced(ws.drop_last()) + seq![' '] + ws.last()
    }
}

/// The literal a simple filter's value text is: quoted text, `true`,
/// `false`, `null`, a number, or else the text itself.
pub open spec fn simple_value(v: Seq<char>) -> FVal {
    if v.len() >= 2 && v[0] == '"' && v.last() == '"' {
        FVal::Str(content_of(v))
    } else if v == seq!['t', 'r', 'u', 'e'] {
        FVal::Bool(true)
    } else if v == seq!['f', 'a', 'l', 's', 'e'] {
        FVal::Bool(false)
    } else if v == seq!['n', 'u', 'l', 'l'] {
        FVal::Null
    } else if number_of(v) is Some {
        FVal::Num(v)
    } else {
        FVal::Str(v)
    }
}

/// The one input a simple filter cannot take apart: a known operator
/// followed by a lone `"`.
pub open spec fn simple_filter_panics(s: Seq<char>) -> bool {
    let ws = words_of(s);
    ws.len() == 3 && simple_op(ws[1]) is Some && ws[2] == seq!['"']
}

/// What `parse_simple_filter` reads from `s`: a field, an operator and a
/// value, separated by whitespace; the value is the rest of the words.
pub open spec fn simple_filter(s: Seq<char>) -> Result<FExpr, Seq<char>> {
    let ws = words_of(s);
    if ws.len() >= 3 {
        match simple_op(ws[1]) {
            None => Err("Unknown operator"@),
            Some(op) => Ok(FExpr::Compare(dot_parts(ws[0]), op, simple_value(spaced(ws.skip(2))))),
        }
    } else {
        Err("Could not parse as simple filter"@)
    }
}

fn simple_op_exec(w: &[char]) -> (r: Option<ComparisonOp>)
    ensures
        r == simple_op(w@),
{
    proof {
        assert(['=', '=']@ == seq!['=', '=']);
        assert(['!', '=']@ == seq!['!', '=']);
        assert(['>']@ == seq!['>']);
        assert(['>', '=']@ == seq!['>', '=']);
        assert(['<']@ == seq!['<']);
        assert(['<', '=']@ == seq!['<', '=']);
        assert(['~']@ == seq!['~']);
        assert(['*', '=']@ == seq!['*', '=']);
        assert(['^', '=']@ == seq!['^', '=']);
        assert(['$', '=']@ == seq!['$', '=']);
    }
    if crate::filter::words_equal(w, &['=', '=']) {
        Some(ComparisonOp::Equal)
    } else if crate::filter::words_equal(w, &['!', '=']) {
        Some(ComparisonOp::NotEqual)
    } else if crate::filter::words_equal(w, &['>']) {
        Some(ComparisonOp::GreaterThan)
    } else if crate::filter::words_equal(w, &['>', '=']) {
        Some(ComparisonOp::GreaterThanOrEqual)
    } else if crate::filter::words_equal(w, &['<']) {
        Some(ComparisonOp::LessThan)
    } else if crate::filter::words_equal(w, &['<', '=']) {
        Some(ComparisonOp::LessThanOrEqual)
    } else if crate::filter::words_equal(w, &['~']) || crate::filter::words_equal(w, &['*', '=']) {
        Some(ComparisonOp::Contains)
    } else if crate::filter::words_equal(w, &['^', '=']) {
        Some(ComparisonOp::StartsWith)
    } else if crate::filter::words_equal(w, &['$', '=']) {
        Some(ComparisonOp::EndsWith)
    } else {
        None
    }
}

fn simple_value_exec(v: &[char]) -> (r: FilterValue)
    ensures
        r@ == simple_value(v@),
{
    proof {
        assert(['t', 'r', 'u', 'e']@ == seq!['t', 'r', 'u', 'e']);
        assert(['f', 'a', 'l', 's', 'e']@ == seq!['f', 'a', 'l', 's', 'e']);
        assert(['n', 'u', 'l', 'l']@ == seq!['n', 'u', 'l', 'l']);
    }
    let n = v.len();
    if n >= 2 && v[0] == '"' && v[n - 1] == '"' {
        FilterValue::String(string_of(&slice_vec(v, 1, n - 1)))
    } else if crate::filter::words_equal(v, &['t', 'r', 'u', 'e']) {
        FilterValue::Boolean(true)
    } else if crate::filter::words_equal(v, &['f', 'a', 'l', 's', 'e']) {
        FilterValue::Boolean(false)
    } else if crate::filter::words_equal(v, &['n', 'u', 'l', 'l']) {
        FilterValue::Null
    } else if number_from_chars(v).is_some() {
        FilterValue::Number(string_of(v))
    } else {
        FilterValue::String(string_of(v))
    }
}

/// Read `input` as `field operator value`, split on whitespace.
pub fn parse_simple_filter(input: &str) -> (r: Result<FilterExpr, String>)
    requires
        !simple_filter_panics(input@),
    ensures
        match r {
            Ok(f) => simple_filter(input@) == Ok::<FExpr, Seq<char>>(f@),
            Err(m) => simple_filter(input@) == Err::<FExpr, Seq<char>>(m@),
        },
{
    let v = chars_of(input);
    let ws = split_words(&v);
    if ws.len() < 3 {
        proof {
            reveal_strlit("Could not parse as simple filter");
        }
        return Err(String::from_str("Could not parse as simple filter"));
    }
    let op = match simple_op_exec(ws[1].as_slice()) {
        Some(op) => op,
        None => {
            proof {
                reveal_strlit("Unknown operator");
            }
            return Err(String::from_str("Unknown operator"));
        },
    };
    let ghost all = words_of(v@);
    let mut value: Vec<char> = Vec::new();
    let mut k: usize = 2;
    proof {
        assert(all.skip(2).take(0) =~= Seq::<Seq<char>>::empty());
    }
    while k < ws.len()
        invariant
            2 <= k <= ws.len(),
            ws@.len() == all.len(),
            all == words_of(v@),
            forall|i: int| 0 <= i < ws@.len() ==> (#[trigger] ws@[i])@ == all[i],
            value@ == spaced(all.skip(2).take(k - 2)),
        decreases ws.len() - k,
    {
        let ghost before = all.skip(2).take(k - 2);
        if k > 2 {
            value.push(' ');
        }
        let mut j: usize = 0;
        let ghost start = value@;
        while j < ws[k].len()
            invariant
                k < ws@.len(),
                j <= ws@[k as int].len(),
                value@ == start + ws@[k as int]@.take(j as int),
            decreases ws@[k as int].len() - j,
        {
            value.push(ws[k][j]);
            j = j + 1;
            assert(ws@[k as int]@.take(j as int) == ws@[k as int]@.take(j - 1).push(ws@[k as int]@[j - 1]));
        }
        proof {
            assert(ws@[k as int]@.take(ws@[k as int]@.len() as int) == ws@[k as int]@);
            let after = all.skip(2).take(k + 1 - 2);
            assert(after.drop_last() =~= before);
            assert(after.last() == all[k as int]);
            if k == 2 {
                assert(after.len() == 1);
            }
        }
        k = k + 1;
    }
    proof {
        assert(all.skip(2).take(ws.len() - 2) =~= all.skip(2));
    }
    let field = FieldPath::new(split_dots(ws[0].as_slice()));
    let fv = simple_value_exec(&value);
    Ok(FilterExpr::Comparison { field, op, value: fv })
}

/// The filter that reading `f` by hand gives: a boolean expression, a
/// simple filter, or what the grammar reads as a filter.
pub open spec fn filter_attempt(f: Seq<char>) -> Option<FExpr> {
    match boolean_fallback(f) {
        Ok(e) => Some(e),
        Err(_) => match simple_filter(f) {
            Ok(e) => Some(e),
            Err(_) => match filter_only(f) {
                Ok(e) => Some(e),
                Err(_) => None,
            },
        },
    }
}

/// `t` is wrapped in braces or brackets.
pub open spec fn wrapped(t: Seq<char>) -> bool {
    t.len() >= 1 && ((t[0] == '{' && t.last() == '}') || (t[0] == '[' && t.last() == ']'))
}

/// The template that reading `t` by hand gives: what the grammar reads as
/// a template, a simple template shape, or the content of braces or
/// brackets read by hand.
pub open spec fn template_attempt(t: Seq<char>) -> Option<Seq<TItem>> {
    match template_only(t) {
        Ok(x) => Some(x),
        Err(_) => match simple_template(t) {
            DslOut::Parsed(_, x, _) => x,
            DslOut::Failed(_) => if wrapped(t) {
                Some(manual_template(content_of(t)))
            } else {
                None
            },
        },
    }
}

/// What `try_manual_parsing` reads from `s`: a filter followed by a
/// template, where the filter reads by hand (the template is kept when it
/// reads too); otherwise a simple filter.
pub open spec fn manual_parse(s: Seq<char>) -> DslOut {
    let direct = match simple_filter(s) {
        Ok(e) => filter_result(e),
        Err(_) => DslOut::Failed("Could not manually parse"@),
    };
    match split_parts(s) {
        Some((f, t)) => match filter_attempt(f) {
            Some(e) => DslOut::Parsed(Some(e), template_attempt(t), None),
            None => direct,
        },
        None => direct,
    }
}

/// The inputs `try_manual_parsing` reads without failing: the split offset
/// falls between characters, and no simple filter it reaches is an
/// operator followed by a lone quote.
pub open spec fn manual_safe(s: Seq<char>) -> bool {
    &&& s.len() <= isize::MAX
    &&& crate::format_detector::is_byte_boundary(s, template_start(s) as nat)
    &&& match split_parts(s) {
        Some((f, _)) => (boolean_fallback(f) is Ok || !simple_filter_panics(f)) && (filter_attempt(f) is Some
            || !simple_filter_panics(s)),
        None => !simple_filter_panics(s),
    }
}

fn filter_attempt_exec(f: &str) -> (r: Option<FilterExpr>)
    requires
        boolean_fallback(f@) is Ok || !simple_filter_panics(f@),
    ensures
        match r {
            Some(e) => filter_attempt(f@) == Some(e@),
            None => filter_attempt(f@) is None,
        },
{
    match try_boolean_with_truthy_fields(f) {
        Ok(d) => return d.filter,
        Err(_) => {},
    }
    match parse_simple_filter(f) {
        Ok(e) => return Some(e),
        Err(_) => {},
    }
    match DSLParser::parse_filter_only(f) {
        Ok(e) => Some(e),
        Err(_) => None,
    }
}

fn template_attempt_exec(t: &str) -> (r: Option<Template>)
    ensures
        match r {
            Some(x) => template_attempt(t@) == Some(x@),
            None => template_attempt(t@) is None,
        },
{
    match DSLParser::parse_template_only(t) {
        Ok(x) => return Some(x),
        Err(_) => {},
    }
    match try_simple_template_patterns(t) {
        Ok(d) => return d.template,
        Err(_) => {},
    }
    let v = chars_of(t);
    let n = v.len();
    if n >= 1 && ((v[0] == '{' && v[n - 1] == '}') || (v[0] == '[' && v[n - 1] == ']')) {
        let content = string_of(&slice_vec(&v, 1, n - 1));
        match DSLParser::parse_template_content_manually(content.as_str()) {
            Ok(x) => Some(x),
            Err(_) => None,
        }
    } else {
        None
    }
}

/// Read a filter followed by a template by hand, or a simple filter.
pub fn try_manual_parsing(input: &str) -> (r: Result<ParsedDSL, String>)
    requires
        manual_safe(input@),
    ensures
        match r {
            Ok(d) => manual_parse(input@) == dsl_view(d),
            Err(m) => manual_parse(input@) == DslOut::Failed(m@),
        },
{
    match split_filter_template_manually(input) {
        Some((f, t)) => {
            match filter_attempt_exec(f.as_str()) {
                Some(e) => {
                    let template = template_attempt_exec(t.as_str());
                    let mut result = ParsedDSL::new();
                    result.filter = Some(e);
                    result.template = template;
                    return Ok(result);
                },
                None => {},
            }
        },
        None => {},
    }
    match parse_simple_filter(input) {
        Ok(e) => Ok(filter_only_result(e)),
        Err(_) => {
            proof {
                reveal_strlit("Could not manually parse");
            }
            Err(String::from_str("Could not manually parse"))
        },
    }
}

/// The message when no strategy reads `s`.
pub open spec fn fallback_message(s: Seq<char>) -> Seq<char> {
    "Could not parse '"@ + s
        + "'. Try:\n  - Templates: [{${name}}], $name, or [Hello ${name}]\n  - Filters: name == \"value\" or age > 25\n  - Field selectors: name or \"field name\""@
}

/// What `try_fallback_parsing` reads from `s`: the first strategy that
/// reads it, in turn by hand as a filter and template, as a boolean
/// expression, as a simple template, and as a field selector.
pub open spec fn fallback_outcome(s: Seq<char>) -> DslOut {
    match manual_parse(s) {
        DslOut::Parsed(a, b, c) => DslOut::Parsed(a, b, c),
        DslOut::Failed(_) => match boolean_fallback(s) {
            Ok(e) => filter_result(e),
            Err(_) => match simple_template(s) {
                DslOut::Parsed(a, b, c) => DslOut::Parsed(a, b, c),
                DslOut::Failed(_) => match selector_fallback(s) {
                    DslOut::Parsed(a, b, c) => DslOut::Parsed(a, b, c),
                    DslOut::Failed(_) => DslOut::Failed(fallback_message(s)),
                },
            },
        },
    }
}

/// Try the fallback strategies in turn when the grammar does not read an
/// expression.
pub fn try_fallback_parsing(input: &str) -> (r: Result<ParsedDSL, String>)
    requires
        manual_safe(input@),
        !lone_quote(input@),
    ensures
        match r {
            Ok(d) => fallback_outcome(input@) == dsl_view(d),
            Err(m) => fallback_outcome(input@) == DslOut::Failed(m@),
        },
{
    match try_manual_parsing(input) {
        Ok(d) => return Ok(d),
        Err(_) => {},
    }
    match try_boolean_with_truthy_fields(input) {
        Ok(d) => return Ok(d),
        Err(_) => {},
    }
    match try_simple_template_patterns(input) {
        Ok(d) => return Ok(d),
        Err(_) => {},
    }
    match try_as_field_selector(input) {
        Ok(d) => return Ok(d),
        Err(_) => {},
    }
    let mut m = String::from_str("Could not parse '");
    m.append(input);
    m.append(
        "'. Try:\n  - Templates: [{${name}}], $name, or [Hello ${name}]\n  - Filters: name == \"value\" or age > 25\n  - Field selectors: name or \"field name\"",
    );
    proof {
        reveal_strlit("Could not parse '");
        reveal_strlit(
            "'. Try:\n  - Templates: [{${name}}], $name, or [Hello ${name}]\n  - Filters: name == \"value\" or age > 25\n  - Field selectors: name or \"field name\"",
        );
        assert(m@ =~= fallback_message(input@));
    }
    Err(m)
}

} // verus!
