//! The expression language: filters, templates and field selectors, with
//! clear disambiguation: `name` is a field selector, `name?` a truthy
//! filter, `$name` and `{…}`/`[…]` templates, and filters need explicit
//! comparison operators.

pub mod ast;
pub mod fallback;
pub mod grammar;
pub mod operators;

pub use ast::ParsedDSL;
pub use grammar::{DSLParser, FilterParser, TemplateParser};

use vstd::prelude::*;
use crate::filter::{FilterExpr, Template};
use crate::record::{chars_string, decimal_text, usize_text};
use crate::text::{chars_of, push_char, slice_vec, string_of, trim, trim_seq};
use grammar::{ascii_digit, dsl_outcome, dsl_view, ident_char, ident_start, DslOut};

verus! {

/// What `parse_command` gives: the parse of the trimmed input, or, when it
/// fails, the hint for a recognized mistake, else the parser's message.
pub open spec fn command_outcome(input: Seq<char>) -> DslOut {
    let t = trim_seq(input);
    match dsl_outcome(t) {
        DslOut::Failed(m) => DslOut::Failed(
            match error_hint(t) {
                Some(h) => h,
                None => m,
            },
        ),
        parsed => parsed,
    }
}

/// Parse one argument of any kind: a filter, a template, a field selector,
/// or a filter with a template.
pub fn parse_command(input: &str) -> (r: Result<ParsedDSL, String>)
    requires
        input@.len() <= isize::MAX,
    ensures
        match r {
            Ok(d) => command_outcome(input@) == dsl_view(d),
            Err(m) => command_outcome(input@) == DslOut::Failed(m@),
        },
{
    let v = chars_of(input);
    let t = string_of(&trim(&v));
    proof {
        crate::text::lemma_trim_len(v@);
    }
    match DSLParser::parse_dsl(t.as_str()) {
        Ok(d) => Ok(d),
        Err(m) => match parse_error_hint(t.as_str()) {
            Some(h) => Err(h),
            None => Err(m),
        },
    }
}

/// The hint for a recognized mistake in `input`.
pub open spec fn error_hint(input: Seq<char>) -> Option<Seq<char>> {
    match bare_not_hint(input) {
        Some(h) => Some(h),
        None => bracket_hint(input),
    }
}

/// A parse failure sometimes has a specific, nameable fix: a bare `!field`
/// or an unbalanced bracket.
pub fn parse_error_hint(input: &str) -> (r: Option<String>)
    requires
        input@.len() <= isize::MAX,
    ensures
        match r {
            Some(h) => error_hint(input@) == Some(h@),
            None => error_hint(input@) is None,
        },
{
    match bare_not_field_hint(input) {
        Some(h) => Some(h),
        None => unbalanced_bracket_hint(input),
    }
}

/// The hint for `!field` without the `?` of a truthy check, when `field`
/// is a valid field path.
pub open spec fn bare_not_hint(input: Seq<char>) -> Option<Seq<char>> {
    if input.len() > 0 && input[0] == '!' && valid_field_path(trim_seq(input.drop_first())) {
        let f = trim_seq(input.drop_first());
        Some(
            "bare '!"@ + f + "' is not supported - negation requires the explicit truthy check '!"@
                + f + "?'"@,
        )
    } else {
        None
    }
}

/// A bare `!field` fails the grammar with a message that does not name the
/// fix; negation is `!field?`. Only a valid field path gets the hint.
pub fn bare_not_field_hint(input: &str) -> (r: Option<String>)
    ensures
        match r {
            Some(h) => bare_not_hint(input@) == Some(h@),
            None => bare_not_hint(input@) is None,
        },
{
    let v = chars_of(input);
    if !(v.len() > 0 && v[0] == '!') {
        return None;
    }
    let rest = slice_vec(&v, 1, v.len());
    let f = trim(&rest);
    proof {
        assert(rest@ == input@.drop_first());
    }
    if !is_valid_field_path_chars(&f) {
        return None;
    }
    let fs = string_of(&f);
    let mut h = String::from_str("bare '!");
    h.append(fs.as_str());
    h.append("' is not supported - negation requires the explicit truthy check '!");
    h.append(fs.as_str());
    h.append("?'");
    proof {
        reveal_strlit("bare '!");
        reveal_strlit("' is not supported - negation requires the explicit truthy check '!");
        reveal_strlit("?'");
        assert(h@ =~= "bare '!"@ + f@ + "' is not supported - negation requires the explicit truthy check '!"@ + f@ + "?'"@);
    }
    Some(h)
}

/// The parts of `s` between dots, as `str::split('.')` gives them.
pub open spec fn dot_parts(s: Seq<char>) -> Seq<Seq<char>>
    decreases s.len(),
{
    match crate::text::first_index_of(s, '.') {
        Some(i) => {
            if 0 <= i < s.len() {
                seq![s.take(i)] + dot_parts(s.skip(i + 1))
            } else {
                seq![s]
            }
        },
        None => seq![s],
    }
}

/// A path component: all digits, or an identifier.
pub open spec fn valid_part(p: Seq<char>) -> bool {
    p.len() > 0 && ((forall|k: int| 0 <= k < p.len() ==> ascii_digit(#[trigger] p[k])) || (
    ident_start(p[0]) && forall|k: int| 0 <= k < p.len() ==> ident_char(#[trigger] p[k])))
}

/// Whether `f` is one or more dot-separated components.
pub open spec fn valid_field_path(f: Seq<char>) -> bool {
    f.len() > 0 && forall|k: int| 0 <= k < dot_parts(f).len() ==> valid_part(#[trigger] dot_parts(f)[k])
}

fn valid_part_chars(p: &[char]) -> (r: bool)
    ensures
        r == valid_part(p@),
{
    if p.len() == 0 {
        return false;
    }
    let mut all_digits = true;
    let mut all_ident = true;
    let mut k: usize = 0;
    while k < p.len()
        invariant
            k <= p.len(),
            all_digits == forall|m: int| 0 <= m < k ==> ascii_digit(#[trigger] p@[m]),
            all_ident == forall|m: int| 0 <= m < k ==> ident_char(#[trigger] p@[m]),
        decreases p.len() - k,
    {
        let c = p[k];
        if !('0' <= c && c <= '9') {
            all_digits = false;
        }
        if !(('a' <= c && c <= 'z') || ('A' <= c && c <= 'Z') || c == '_' || ('0' <= c && c <= '9')) {
            all_ident = false;
        }
        k = k + 1;
    }
    let c0 = p[0];
    all_digits || ((('a' <= c0 && c0 <= 'z') || ('A' <= c0 && c0 <= 'Z') || c0 == '_') && all_ident)
}

#[verifier::loop_isolation(false)]
fn is_valid_field_path_chars(f: &[char]) -> (r: bool)
    ensures
        r == valid_field_path(f@),
{
    if f.len() == 0 {
        return false;
    }
    let mut start: usize = 0;
    proof {
        assert(f@.skip(0) == f@);
    }
    loop
        invariant
            start <= f.len(),
            valid_field_path(f@) == (forall|k: int|
                0 <= k < dot_parts(f@.skip(start as int)).len() ==> valid_part(
                    #[trigger] dot_parts(f@.skip(start as int))[k],
                )),
        decreases f.len() - start,
    {
        let ghost rest = f@.skip(start as int);
        proof {
            crate::text::lemma_first_index_of(rest, '.');
        }
        let mut i = start;
        while i < f.len() && f[i] != '.'
            invariant
                start <= i <= f.len(),
                forall|m: int| start <= m < i ==> f@[m] != '.',
            decreases f.len() - i,
        {
            i = i + 1;
        }
        let part = slice_vec(f, start, i);
        if i == f.len() {
            proof {
                assert(forall|m: int| 0 <= m < rest.len() ==> rest[m] == f@[start + m]);
                assert(crate::text::first_index_of(rest, '.') is None);
                assert(part@ == rest);
                assert(dot_parts(rest) == seq![rest]);
                assert(dot_parts(rest)[0] == part@);
            }
            let ok = valid_part_chars(&part);
            proof {
                if ok {
                    assert forall|k: int| 0 <= k < dot_parts(rest).len() implies valid_part(#[trigger] dot_parts(rest)[k]) by {
                        assert(k == 0);
                    }
                }
            }
            return ok;
        }
        proof {
            let j = (i - start) as int;
            assert(rest[j] == '.');
            match crate::text::first_index_of(rest, '.') {
                Some(x) => {
                    if x < j {
                        assert(rest[x] == f@[start + x]);
                    }
                    if x > j {
                        assert(rest[j] != '.');
                    }
                    assert(x == j);
                },
                None => {
                    assert(rest[j] != '.');
                },
            }
            assert(part@ == rest.take(j));
            assert(rest.skip(j + 1) == f@.skip(i + 1));
            let dp = dot_parts(rest);
            assert(dp == seq![rest.take(j)] + dot_parts(f@.skip(i + 1)));
            assert forall|k: int| 0 <= k < dot_parts(f@.skip(i + 1)).len() implies #[trigger] dot_parts(f@.skip(i + 1))[k] == dp[k + 1] by {}
        }
        if !valid_part_chars(&part) {
            proof {
                assert(dot_parts(rest)[0] == part@);
            }
            return false;
        }
        proof {
            let dp = dot_parts(rest);
            let dn = dot_parts(f@.skip(i + 1));
            assert((forall|k: int| 0 <= k < dp.len() ==> valid_part(#[trigger] dp[k])) == (forall|k: int|
                0 <= k < dn.len() ==> valid_part(#[trigger] dn[k]))) by {
                if forall|k: int| 0 <= k < dn.len() ==> valid_part(#[trigger] dn[k]) {
                    assert forall|k: int| 0 <= k < dp.len() implies valid_part(#[trigger] dp[k]) by {
                        if k > 0 {
                            assert(dp[k] == dn[k - 1]);
                        }
                    }
                }
                if forall|k: int| 0 <= k < dp.len() ==> valid_part(#[trigger] dp[k]) {
                    assert forall|k: int| 0 <= k < dn.len() implies valid_part(#[trigger] dn[k]) by {
                        assert(dn[k] == dp[k + 1]);
                    }
                }
            }
        }
        start = i + 1;
    }
}

/// Whether `field` is one or more `.`-separated components, each all
/// ASCII digits or an identifier.
pub fn is_valid_field_path(field: &str) -> (r: bool)
    ensures
        r == valid_field_path(field@),
{
    let v = chars_of(field);
    is_valid_field_path_chars(&v)
}

/// Where a scan for brackets stands: outside quotes, or inside a double
/// or single quoted string, or a regex literal.
#[derive(Debug, Clone, Copy, PartialEq, Eq, Structural)]
pub enum Span {
    Plain,
    Double,
    Single,
    Regex,
}

/// The scan for unbalanced template brackets from `i`, in `span`, with
/// `depth` brackets open: `Some(true)` for a `]` with nothing open,
/// `Some(false)` for a `[` left open, `None` when balanced. Quoted and
/// regex spans are skipped, and a backslash skips the next character.
pub open spec fn bracket_scan(s: Seq<char>, i: int, span: Span, depth: int) -> Option<bool>
    decreases s.len() + 1 - i,
{
    if i < 0 || i >= s.len() {
        if depth > 0 {
            Some(false)
        } else {
            None
        }
    } else {
        let c = s[i];
        match span {
            Span::Plain => if c == '"' {
                bracket_scan(s, i + 1, Span::Double, depth)
            } else if c == '\'' {
                bracket_scan(s, i + 1, Span::Single, depth)
            } else if c == '/' {
                bracket_scan(s, i + 1, Span::Regex, depth)
            } else if c == '\\' {
                bracket_scan(s, i + 2, Span::Plain, depth)
            } else if c == '[' {
                bracket_scan(s, i + 1, Span::Plain, depth + 1)
            } else if c == ']' {
                if depth - 1 < 0 {
                    Some(true)
                } else {
                    bracket_scan(s, i + 1, Span::Plain, depth - 1)
                }
            } else {
                bracket_scan(s, i + 1, Span::Plain, depth)
            },
            Span::Double => if c == '\\' {
                bracket_scan(s, i + 2, Span::Double, depth)
            } else if c == '"' {
                bracket_scan(s, i + 1, Span::Plain, depth)
            } else {
                bracket_scan(s, i + 1, Span::Double, depth)
            },
            Span::Single => if c == '\\' {
                bracket_scan(s, i + 2, Span::Single, depth)
            } else if c == '\'' {
                bracket_scan(s, i + 1, Span::Plain, depth)
            } else {
                bracket_scan(s, i + 1, Span::Single, depth)
            },
            Span::Regex => if c == '/' {
                bracket_scan(s, i + 1, Span::Plain, depth)
            } else {
                bracket_scan(s, i + 1, Span::Regex, depth)
            },
        }
    }
}

/// The hint for an unbalanced bracket in `input`.
pub open spec fn bracket_hint(input: Seq<char>) -> Option<Seq<char>> {
    match bracket_scan(input, 0, Span::Plain, 0) {
        Some(true) => Some("unbalanced ']' in a bracketed template - use '\\]' for a literal ']'"@),
        Some(false) => Some("unbalanced '[' in a bracketed template - use '\\[' for a literal '['"@),
        None => None,
    }
}

/// A `[...]` template takes a balanced `[...]` pair as literal, or `\[`
/// and `\]` as escaped brackets; an unbalanced bracket gets a hint naming
/// the escape. Quoted and regex spans are skipped.
#[verifier::loop_isolation(false)]
pub fn unbalanced_bracket_hint(input: &str) -> (r: Option<String>)
    requires
        input@.len() <= isize::MAX,
    ensures
        match r {
            Some(h) => bracket_hint(input@) == Some(h@),
            None => bracket_hint(input@) is None,
        },
{
    let v = chars_of(input);
    let mut span = Span::Plain;
    let mut depth: isize = 0;
    let mut i: usize = 0;
    while i < v.len()
        invariant
            v@ == input@,
            0 <= depth <= i,
            i <= v.len() + 1,
            bracket_scan(v@, 0, Span::Plain, 0) == bracket_scan(v@, i as int, span, depth as int),
        decreases v.len() + 1 - i,
    {
        let c = v[i];
        match span {
            Span::Plain => {
                if c == '"' {
                    span = Span::Double;
                } else if c == '\'' {
                    span = Span::Single;
                } else if c == '/' {
                    span = Span::Regex;
                } else if c == '\\' {
                    i = i + 1;
                } else if c == '[' {
                    depth = depth + 1;
                } else if c == ']' {
                    if depth - 1 < 0 {
                        let h = String::from_str(
                            "unbalanced ']' in a bracketed template - use '\\]' for a literal ']'",
                        );
                        return Some(h);
                    }
                    depth = depth - 1;
                }
            },
            Span::Double => {
                if c == '\\' {
                    i = i + 1;
                } else if c == '"' {
                    span = Span::Plain;
                }
            },
            Span::Single => {
                if c == '\\' {
                    i = i + 1;
                } else if c == '\'' {
                    span = Span::Plain;
                }
            },
            Span::Regex => {
                if c == '/' {
                    span = Span::Plain;
                }
            },
        }
        i = i + 1;
    }
    if depth > 0 {
        Some(
            String::from_str("unbalanced '[' in a bracketed template - use '\\[' for a literal '['"),
        )
    } else {
        None
    }
}

/// Whether a first argument is accepted: empty after trimming, or a
/// filter alone.
pub open spec fn filter_arg_parses(f: Seq<char>) -> bool {
    trim_seq(f).len() == 0 || dsl_outcome(trim_seq(f)) matches DslOut::Parsed(Some(_), None, None)
}

/// Whether a second argument is accepted: empty after trimming, or a
/// template alone.
pub open spec fn template_arg_parses(t: Seq<char>) -> bool {
    trim_seq(t).len() == 0 || dsl_outcome(trim_seq(t)) matches DslOut::Parsed(None, Some(_), None)
}

/// What the separate form fails with: the first argument's error, else the
/// second's, else nothing.
pub open spec fn separate_error(filter: Option<&str>, template: Option<&str>) -> Option<Seq<char>> {
    match filter {
        Some(f) if !filter_arg_parses(f@) => Some(
            argument_message(1, f@, " is not a filter expression - it parsed as "@),
        ),
        _ => match template {
            Some(t) if !template_arg_parses(t@) => Some(
                argument_message(2, t@, " is not a template - it parsed as "@),
            ),
            _ => None,
        },
    }
}

/// Parse the two-argument form: the first argument is a filter or empty,
/// the second a template. An argument that parses as any other kind is an
/// error naming the argument and what it parsed as.
pub fn parse_separate_expressions(filter: Option<&str>, template: Option<&str>) -> (r: Result<
    ParsedDSL,
    String,
>)
    requires
        filter matches Some(f) ==> f@.len() <= isize::MAX,
        template matches Some(t) ==> t@.len() <= isize::MAX,
    ensures
        match r {
            Ok(_) => separate_error(filter, template) is None,
            Err(m) => separate_error(filter, template) == Some(m@),
        },
        r matches Ok(d) ==> d.field_selector is None,
        r matches Ok(d) ==> (d.filter is Some <==> (filter matches Some(f) && trim_seq(f@).len()
            > 0)),
        r matches Ok(d) ==> (d.template is Some <==> (template matches Some(t) && trim_seq(t@).len()
            > 0)),
        r matches Ok(d) ==> (d.filter matches Some(fe) ==> (filter matches Some(f) && dsl_outcome(
            trim_seq(f@),
        ) == DslOut::Parsed(Some(fe@), None, None))),
        r matches Ok(d) ==> (d.template matches Some(te) ==> (template matches Some(t) && dsl_outcome(
            trim_seq(t@),
        ) == DslOut::Parsed(None, Some(te@), None))),
{
    let mut result = ParsedDSL::new();
    if let Some(f) = filter {
        let fv = chars_of(f);
        if trim(&fv).len() > 0 {
            result.filter = Some(parse_argument_as_filter(1, f)?);
        }
    }
    if let Some(t) = template {
        let tv = chars_of(t);
        if trim(&tv).len() > 0 {
            result.template = Some(parse_argument_as_template(2, t)?);
        }
    }
    Ok(result)
}

/// `argument <n> ('<raw>')`.
fn argument_label(arg_num: u8, raw: &str) -> (r: String)
    ensures
        r@ == "argument "@ + decimal_text(arg_num as nat) + " ('"@ + raw@ + "')"@,
{
    let mut m = String::from_str("argument ");
    m.append(usize_text(arg_num as usize).as_str());
    m.append(" ('");
    m.append(raw);
    m.append("')");
    proof {
        reveal_strlit("argument ");
        reveal_strlit(" ('");
        reveal_strlit("')");
        assert(m@ =~= "argument "@ + decimal_text(arg_num as nat) + " ('"@ + raw@ + "')"@);
    }
    m
}

/// The message for argument `arg_num` (`raw`) that is not of the kind
/// wanted: the parse error (or its hint) when the trimmed text does not
/// parse, else `mismatch` and the kind it parsed as.
pub open spec fn argument_message(arg_num: nat, raw: Seq<char>, mismatch: Seq<char>) -> Seq<char> {
    let t = trim_seq(raw);
    let label = "argument "@ + decimal_text(arg_num) + " ('"@ + raw + "')"@;
    match dsl_outcome(t) {
        DslOut::Failed(e) => label + ": "@ + match error_hint(t) {
            Some(h) => h,
            None => e,
        },
        DslOut::Parsed(f, tp, sel) => label + mismatch + kind_name(f is Some, tp is Some, sel is Some),
    }
}

/// Parse argument `arg_num` (`raw`) and require it to be a filter alone.
pub fn parse_argument_as_filter(arg_num: u8, raw: &str) -> (r: Result<FilterExpr, String>)
    requires
        raw@.len() <= isize::MAX,
    ensures
        match r {
            Ok(f) => dsl_outcome(trim_seq(raw@)) == DslOut::Parsed(Some(f@), None, None),
            Err(m) => !(dsl_outcome(trim_seq(raw@)) matches DslOut::Parsed(Some(_), None, None))
                && m@ == argument_message(
                arg_num as nat,
                raw@,
                " is not a filter expression - it parsed as "@,
            ),
        },
{
    let v = chars_of(raw);
    let t = string_of(&trim(&v));
    proof {
        crate::text::lemma_trim_len(v@);
    }
    match DSLParser::parse_dsl(t.as_str()) {
        Err(e) => {
            let mut m = argument_label(arg_num, raw);
            m.append(": ");
            match parse_error_hint(t.as_str()) {
                Some(h) => m.append(h.as_str()),
                None => m.append(e.as_str()),
            }
            proof {
                reveal_strlit(": ");
                assert(m@ =~= argument_message(arg_num as nat, raw@, " is not a filter expression - it parsed as "@));
            }
            Err(m)
        },
        Ok(parsed) => {
            let desc = describe_parsed(&parsed);
            match parsed {
                ParsedDSL { filter: Some(f), template: None, field_selector: None } => Ok(f),
                _ => {
                    let mut m = argument_label(arg_num, raw);
                    m.append(" is not a filter expression - it parsed as ");
                    m.append(desc);
                    proof {
                        reveal_strlit(" is not a filter expression - it parsed as ");
                        assert(m@ =~= argument_message(arg_num as nat, raw@, " is not a filter expression - it parsed as "@));
                    }
                    Err(m)
                },
            }
        },
    }
}

/// Parse argument `arg_num` (`raw`) and require it to be a template alone.
pub fn parse_argument_as_template(arg_num: u8, raw: &str) -> (r: Result<Template, String>)
    requires
        raw@.len() <= isize::MAX,
    ensures
        match r {
            Ok(t) => dsl_outcome(trim_seq(raw@)) == DslOut::Parsed(None, Some(t@), None),
            Err(m) => !(dsl_outcome(trim_seq(raw@)) matches DslOut::Parsed(None, Some(_), None))
                && m@ == argument_message(arg_num as nat, raw@, " is not a template - it parsed as "@),
        },
{
    let v = chars_of(raw);
    let t = string_of(&trim(&v));
    proof {
        crate::text::lemma_trim_len(v@);
    }
    match DSLParser::parse_dsl(t.as_str()) {
        Err(e) => {
            let mut m = argument_label(arg_num, raw);
            m.append(": ");
            match parse_error_hint(t.as_str()) {
                Some(h) => m.append(h.as_str()),
                None => m.append(e.as_str()),
            }
            proof {
                reveal_strlit(": ");
                assert(m@ =~= argument_message(arg_num as nat, raw@, " is not a template - it parsed as "@));
            }
            Err(m)
        },
        Ok(parsed) => {
            let desc = describe_parsed(&parsed);
            match parsed {
                ParsedDSL { filter: None, template: Some(tp), field_selector: None } => Ok(tp),
                _ => {
                    let mut m = argument_label(arg_num, raw);
                    m.append(" is not a template - it parsed as ");
                    m.append(desc);
                    proof {
                        reveal_strlit(" is not a template - it parsed as ");
                        assert(m@ =~= argument_message(arg_num as nat, raw@, " is not a template - it parsed as "@));
                    }
                    Err(m)
                },
            }
        },
    }
}

/// The kind a parse result resolved to.
pub open spec fn kind_name(f: bool, t: bool, s: bool) -> Seq<char> {
    if f && t {
        "a combined filter and template"@
    } else if f && !t && !s {
        "a filter expression"@
    } else if !f && t && !s {
        "a template"@
    } else if !f && !t && s {
        "a field selector"@
    } else if !f && !t && !s {
        "nothing"@
    } else {
        "an unexpected combination"@
    }
}

/// Name the kind a parse result resolved to, for an argument-position
/// mismatch error.
pub fn describe_parsed(dsl: &ParsedDSL) -> (r: &'static str)
    ensures
        r@ == kind_name(dsl.filter is Some, dsl.template is Some, dsl.field_selector is Some),
{
    let f = dsl.filter.is_some();
    let t = dsl.template.is_some();
    let s = dsl.field_selector.is_some();
    if f && t {
        "a combined filter and template"
    } else if f && !t && !s {
        "a filter expression"
    } else if !f && t && !s {
        "a template"
    } else if !f && !t && s {
        "a field selector"
    } else if !f && !t && !s {
        "nothing"
    } else {
        "an unexpected combination"
    }
}

} // verus!
