//! Heuristic format detection: which structured formats an input most
//! likely is, with confidence scores.
//!
//! Confidences are held in hundredths: `95` stands for `0.95`.

use vstd::prelude::*;
use crate::text::{
    chars_of, contains, contains_seq, count_char, count_of, ends_with, ends_with_seq, has_char, is_whitespace,
    is_ws, lead_ws, lemma_trim_start, lines_of, slice_vec, split_lines, split_words, starts_with,
    starts_with_seq, trim, trim_seq, trim_start_seq, words_of,
};

verus! {

/// A format the heuristics can name.
#[derive(Debug, Clone, Copy, PartialEq, Eq, Hash, Structural)]
pub enum DetectedFormat {
    Json,
    JsonArray,
    Toml,
    Yaml,
    Csv,
    Logfmt,
    PlainText,
}

pub struct FormatDetector;

/// The first `n` lines of `s`.
pub open spec fn first_lines(s: Seq<char>, n: nat) -> Seq<Seq<char>> {
    let ls = lines_of(s);
    if ls.len() <= n {
        ls
    } else {
        ls.take(n as int)
    }
}

/// A line counts for a heuristic unless it is blank or a `#` comment.
pub open spec fn counts(t: Seq<char>) -> bool {
    t.len() > 0 && t[0] != '#'
}

/// TOML indicators of one line.
pub open spec fn toml_line_score(line: Seq<char>) -> nat {
    let t = trim_seq(line);
    if !counts(t) {
        0
    } else {
        (if contains_seq(t, seq![' ', '=', ' ']) && !starts_with_seq(t, seq!['"']) {
            2nat
        } else {
            0nat
        }) + (if starts_with_seq(t, seq!['[']) && ends_with_seq(t, seq![']']) && !t.contains(':') {
            3nat
        } else {
            0nat
        }) + (if starts_with_seq(t, seq!['[', '[']) && ends_with_seq(t, seq![']', ']']) {
            3nat
        } else {
            0nat
        })
    }
}

/// YAML indicators of one line.
pub open spec fn yaml_line_score(line: Seq<char>) -> nat {
    let t = trim_seq(line);
    if !counts(t) {
        0
    } else {
        (if contains_seq(t, seq![':', ' ']) && !starts_with_seq(t, seq!['"']) && !contains_seq(
            t,
            seq![' ', '=', ' '],
        ) {
            1nat
        } else {
            0nat
        }) + (if starts_with_seq(t, seq!['-', ' ']) {
            1nat
        } else {
            0nat
        }) + (if starts_with_seq(line, seq![' ', ' ']) && (contains_seq(line, seq![':', ' '])
            || starts_with_seq(t, seq!['-', ' '])) {
            2nat
        } else {
            0nat
        })
    }
}

/// Sum of a per-line score over `lines`.
pub open spec fn total_score(lines: Seq<Seq<char>>, score: spec_fn(Seq<char>) -> nat) -> nat
    decreases lines.len(),
{
    if lines.len() == 0 {
        0
    } else {
        total_score(lines.drop_last(), score) + score(lines.last())
    }
}

/// `is_likely_toml`: the first ten lines score at least 2.
pub open spec fn likely_toml(s: Seq<char>) -> bool {
    total_score(first_lines(s, 10), |l: Seq<char>| toml_line_score(l)) >= 2
}

/// `is_likely_yaml`: a leading `---`, or the first ten lines score at
/// least 2.
pub open spec fn likely_yaml(s: Seq<char>) -> bool {
    starts_with_seq(trim_start_seq(s), seq!['-', '-', '-']) || total_score(
        first_lines(s, 10),
        |l: Seq<char>| yaml_line_score(l),
    ) >= 2
}

/// A line that is not all whitespace.
pub open spec fn nonblank(l: Seq<char>) -> bool {
    trim_seq(l).len() > 0
}

/// `is_likely_csv`: among the non-blank lines of the first five, some has
/// a comma and all have the same number of fields.
pub open spec fn likely_csv(s: Seq<char>) -> bool {
    let ls = first_lines(s, 5);
    &&& exists|i: int| 0 <= i < ls.len() && nonblank(ls[i]) && ls[i].contains(',')
    &&& forall|i: int, j: int|
        0 <= i < ls.len() && 0 <= j < ls.len() && nonblank(ls[i]) && nonblank(ls[j])
            ==> count_char(ls[i], ',') == count_char(ls[j], ',')
}

/// A whitespace-separated part that looks like `key=value`.
pub open spec fn is_kv_part(p: Seq<char>) -> bool {
    p.contains('=') && !starts_with_seq(p, seq!['=']) && !ends_with_seq(p, seq!['='])
}

/// How many of `parts` look like `key=value`.
pub open spec fn kv_count(parts: Seq<Seq<char>>) -> nat
    decreases parts.len(),
{
    if parts.len() == 0 {
        0
    } else {
        kv_count(parts.drop_last()) + if is_kv_part(parts.last()) { 1nat } else { 0nat }
    }
}

/// A line where more than half of the parts are `key=value`.
pub open spec fn logfmt_line(line: Seq<char>) -> bool {
    let parts = words_of(trim_seq(line));
    parts.len() > 0 && 2 * kv_count(parts) > parts.len()
}

/// `is_likely_logfmt`: one of the first five lines is mostly `key=value`.
pub open spec fn likely_logfmt(s: Seq<char>) -> bool {
    exists|i: int| 0 <= i < first_lines(s, 5).len() && logfmt_line(#[trigger] first_lines(s, 5)[i])
}

fn first_lines_exec(input: &str, n: usize) -> (r: Vec<Vec<char>>)
    ensures
        r@.len() == first_lines(input@, n as nat).len(),
        forall|i: int| 0 <= i < r@.len() ==> (#[trigger] r@[i])@ == first_lines(input@, n as nat)[i],
{
    let v = chars_of(input);
    let mut all = split_lines(&v);
    if all.len() > n {
        all.truncate(n);
    }
    all
}

fn toml_line_score_exec(line: &Vec<char>) -> (r: u64)
    ensures
        r == toml_line_score(line@),
{
    let t = trim(line);
    if t.len() == 0 || t[0] == '#' {
        return 0;
    }
    let mut score: u64 = 0;
    if contains(&t, &[' ', '=', ' ']) && !starts_with(&t, &['"']) {
        score = score + 2;
    }
    if starts_with(&t, &['[']) && ends_with(&t, &[']']) && !has_char(&t, ':') {
        score = score + 3;
    }
    if starts_with(&t, &['[', '[']) && ends_with(&t, &[']', ']']) {
        score = score + 3;
    }
    proof {
        assert([' ', '=', ' ']@ == seq![' ', '=', ' ']);
        assert(['"']@ == seq!['"']);
        assert(['[']@ == seq!['[']);
        assert([']']@ == seq![']']);
        assert(['[', '[']@ == seq!['[', '[']);
        assert([']', ']']@ == seq![']', ']']);
    }
    score
}

fn yaml_line_score_exec(line: &Vec<char>) -> (r: u64)
    ensures
        r == yaml_line_score(line@),
{
    let t = trim(line);
    if t.len() == 0 || t[0] == '#' {
        return 0;
    }
    let mut score: u64 = 0;
    if contains(&t, &[':', ' ']) && !starts_with(&t, &['"']) && !contains(&t, &[' ', '=', ' ']) {
        score = score + 1;
    }
    if starts_with(&t, &['-', ' ']) {
        score = score + 1;
    }
    if starts_with(line, &[' ', ' ']) && (contains(line, &[':', ' ']) || starts_with(&t, &['-', ' '])) {
        score = score + 2;
    }
    proof {
        assert([' ', '=', ' ']@ == seq![' ', '=', ' ']);
        assert(['"']@ == seq!['"']);
        assert([':', ' ']@ == seq![':', ' ']);
        assert(['-', ' ']@ == seq!['-', ' ']);
        assert([' ', ' ']@ == seq![' ', ' ']);
    }
    score
}

proof fn lemma_total_score_bound(lines: Seq<Seq<char>>, score: spec_fn(Seq<char>) -> nat, max: nat)
    requires
        forall|i: int| 0 <= i < lines.len() ==> score(#[trigger] lines[i]) <= max,
    ensures
        total_score(lines, score) <= lines.len() * max,
    decreases lines.len(),
{
    if lines.len() > 0 {
        lemma_total_score_bound(lines.drop_last(), score, max);
        assert(score(lines[lines.len() - 1]) <= max);
        assert((lines.len() - 1) * max + max == lines.len() * max) by (nonlinear_arith);
    }
}

impl FormatDetector {
    /// Check if content looks like TOML: `key = value` lines and `[section]`
    /// headers among its first ten lines.
    pub fn is_likely_toml(input: &str) -> (r: bool)
        ensures
            r == likely_toml(input@),
    {
        let lines = first_lines_exec(input, 10);
        let ghost ls = first_lines(input@, 10);
        let mut total: u64 = 0;
        let mut i: usize = 0;
        while i < lines.len()
            invariant
                i <= lines.len() <= 10,
                lines@.len() == ls.len(),
                forall|k: int| 0 <= k < lines@.len() ==> (#[trigger] lines@[k])@ == ls[k],
                total == total_score(ls.take(i as int), |l: Seq<char>| toml_line_score(l)),
                total <= 8 * i,
            decreases lines.len() - i,
        {
            let s = toml_line_score_exec(&lines[i]);
            assert(s <= 8);
            assert(ls.take(i + 1).drop_last() == ls.take(i as int));
            total = total + s;
            i = i + 1;
        }
        assert(ls.take(lines.len() as int) == ls);
        total >= 2
    }

    /// Check if content looks like YAML: a leading `---`, `key: value`
    /// lines, `- item` lines or indented structure.
    pub fn is_likely_yaml(input: &str) -> (r: bool)
        ensures
            r == likely_yaml(input@),
    {
        let v = chars_of(input);
        let rest = slice_vec(&v, lead_ws_exec(&v), v.len());
        if starts_with(&rest, &['-', '-', '-']) {
            assert(['-', '-', '-']@ == seq!['-', '-', '-']);
            return true;
        }
        assert(['-', '-', '-']@ == seq!['-', '-', '-']);
        let lines = first_lines_exec(input, 10);
        let ghost ls = first_lines(input@, 10);
        let mut total: u64 = 0;
        let mut i: usize = 0;
        while i < lines.len()
            invariant
                i <= lines.len() <= 10,
                lines@.len() == ls.len(),
                forall|k: int| 0 <= k < lines@.len() ==> (#[trigger] lines@[k])@ == ls[k],
                total == total_score(ls.take(i as int), |l: Seq<char>| yaml_line_score(l)),
                total <= 4 * i,
            decreases lines.len() - i,
        {
            let s = yaml_line_score_exec(&lines[i]);
            assert(ls.take(i + 1).drop_last() == ls.take(i as int));
            total = total + s;
            i = i + 1;
        }
        assert(ls.take(lines.len() as int) == ls);
        total >= 2
    }
}

/// Number of leading whitespace characters of `v`.
pub fn lead_ws_exec(v: &[char]) -> (r: usize)
    ensures
        r == lead_ws(v@),
        r <= v.len(),
        v@.skip(r as int) == trim_start_seq(v@),
{
    let mut k: usize = 0;
    while k < v.len() && is_whitespace(v[k])
        invariant
            k <= v.len(),
            forall|i: int| 0 <= i < k ==> is_ws(#[trigger] v@[i]),
        decreases v.len() - k,
    {
        k = k + 1;
    }
    proof {
        lemma_trim_start(v@);
        if lead_ws(v@) < k {
            assert(is_ws(v@[lead_ws(v@) as int]));
        }
        if k < lead_ws(v@) {
            assert(is_ws(v@[k as int]));
        }
    }
    k
}


fn is_kv_part_exec(p: &Vec<char>) -> (r: bool)
    ensures
        r == is_kv_part(p@),
{
    assert(['=']@ == seq!['=']);
    has_char(p, '=') && !starts_with(p, &['=']) && !ends_with(p, &['='])
}

fn logfmt_line_exec(line: &Vec<char>) -> (r: bool)
    ensures
        r == logfmt_line(line@),
{
    let t = trim(line);
    let parts = split_words(&t);
    let ghost ps = words_of(t@);
    let mut kv: usize = 0;
    let mut i: usize = 0;
    while i < parts.len()
        invariant
            i <= parts.len(),
            parts@.len() == ps.len(),
            forall|k: int| 0 <= k < parts@.len() ==> (#[trigger] parts@[k])@ == ps[k],
            kv == kv_count(ps.take(i as int)),
            kv <= i,
        decreases parts.len() - i,
    {
        assert(ps.take(i + 1).drop_last() == ps.take(i as int));
        if is_kv_part_exec(&parts[i]) {
            kv = kv + 1;
        }
        i = i + 1;
    }
    assert(ps.take(parts.len() as int) == ps);
    parts.len() > 0 && kv > parts.len() - kv
}

impl FormatDetector {
    /// Check if content looks like CSV: commas, and the same number of
    /// fields on each of the first five non-blank lines.
    pub fn is_likely_csv(input: &str) -> (r: bool)
        ensures
            r == likely_csv(input@),
    {
        let lines = first_lines_exec(input, 5);
        let ghost ls = first_lines(input@, 5);
        let mut has_commas = false;
        let mut first_count: Option<usize> = None;
        let mut consistent = true;
        let mut i: usize = 0;
        while i < lines.len()
            invariant
                i <= lines.len(),
                lines@.len() == ls.len(),
                forall|k: int| 0 <= k < lines@.len() ==> (#[trigger] lines@[k])@ == ls[k],
                has_commas == exists|k: int| 0 <= k < i && nonblank(ls[k]) && ls[k].contains(','),
                first_count is None <==> forall|k: int| 0 <= k < i ==> !nonblank(#[trigger] ls[k]),
                first_count matches Some(c) ==> exists|k: int|
                    0 <= k < i && nonblank(ls[k]) && count_char(ls[k], ',') == c,
                consistent == forall|a: int, b: int|
                    0 <= a < i && 0 <= b < i && nonblank(ls[a]) && nonblank(ls[b]) ==> count_char(
                        ls[a],
                        ',',
                    ) == count_char(ls[b], ','),
            decreases lines.len() - i,
        {
            let t = trim(&lines[i]);
            if t.len() > 0 {
                let c = count_of(&lines[i], ',');
                match first_count {
                    None => {
                        first_count = Some(c);
                    },
                    Some(f) => {
                        if f != c {
                            consistent = false;
                        }
                    },
                }
                if has_char(&lines[i], ',') {
                    has_commas = true;
                }
            }
            proof {
                let ii = i as int;
                assert forall|a: int, b: int|
                    0 <= a < ii + 1 && 0 <= b < ii + 1 && nonblank(ls[a]) && nonblank(ls[b])
                        && consistent implies count_char(ls[a], ',') == count_char(ls[b], ',') by {
                    if a == ii || b == ii {
                        if let Some(f) = first_count {
                            let w = choose|k: int| 0 <= k < ii + 1 && nonblank(ls[k]) && count_char(ls[k], ',') == f;
                        }
                    }
                }
            }
            i = i + 1;
        }
        assert(['=']@ == seq!['=']);
        has_commas && consistent
    }

    /// Check if content looks like logfmt: on one of the first five lines,
    /// more than half the whitespace-separated parts are `key=value`.
    pub fn is_likely_logfmt(input: &str) -> (r: bool)
        ensures
            r == likely_logfmt(input@),
    {
        let lines = first_lines_exec(input, 5);
        let ghost ls = first_lines(input@, 5);
        let mut i: usize = 0;
        while i < lines.len()
            invariant
                i <= lines.len(),
                lines@.len() == ls.len(),
                forall|k: int| 0 <= k < lines@.len() ==> (#[trigger] lines@[k])@ == ls[k],
                forall|k: int| 0 <= k < i ==> !logfmt_line(#[trigger] ls[k]),
                ls == first_lines(input@, 5),
            decreases lines.len() - i,
        {
            if logfmt_line_exec(&lines[i]) {
                assert(logfmt_line(first_lines(input@, 5)[i as int]));
                return true;
            }
            i = i + 1;
        }
        false
    }
}


/// Bytes in the UTF-8 encoding of `c`.
pub open spec fn utf8_len(c: char) -> nat {
    if (c as u32) < 0x80 {
        1
    } else if (c as u32) < 0x800 {
        2
    } else if (c as u32) < 0x10000 {
        3
    } else {
        4
    }
}

/// Bytes in the UTF-8 encoding of `s`.
pub open spec fn byte_len(s: Seq<char>) -> nat
    decreases s.len(),
{
    if s.len() == 0 {
        0
    } else {
        byte_len(s.drop_last()) + utf8_len(s.last())
    }
}

/// Number of leading characters of `s` whose bytes fit in `n`.
pub open spec fn chars_within(s: Seq<char>, n: nat) -> nat
    decreases s.len(),
{
    if s.len() == 0 || utf8_len(s[0]) > n {
        0
    } else {
        1 + chars_within(s.drop_first(), (n - utf8_len(s[0])) as nat)
    }
}

/// At most every character fits.
pub proof fn lemma_chars_within(s: Seq<char>, n: nat)
    ensures
        chars_within(s, n) <= s.len(),
    decreases s.len(),
{
    if !(s.len() == 0 || utf8_len(s[0]) > n) {
        lemma_chars_within(s.drop_first(), (n - utf8_len(s[0])) as nat);
    }
}

/// Byte `n` of `s` falls between characters, or past its end.
pub open spec fn is_byte_boundary(s: Seq<char>, n: nat) -> bool {
    byte_len(s) <= n || byte_len(s.take(chars_within(s, n) as int)) == n
}

/// The first `n` bytes of `s`, as characters (`&s[..n]`).
pub open spec fn byte_prefix(s: Seq<char>, n: nat) -> Seq<char> {
    s.take(chars_within(s, n) as int)
}

/// `list` with `item` appended when `cond` holds.
pub open spec fn push_if(
    list: Seq<(DetectedFormat, u32)>,
    cond: bool,
    item: (DetectedFormat, u32),
) -> Seq<(DetectedFormat, u32)> {
    if cond {
        list.push(item)
    } else {
        list
    }
}

/// The list for the given indicators, highest confidence first.
pub open spec fn detect_list(
    dashes: bool,
    brace: bool,
    bracket: bool,
    toml: bool,
    yaml: bool,
    csv: bool,
    logfmt: bool,
) -> Seq<(DetectedFormat, u32)> {
    let l1 = push_if(seq![], dashes, (DetectedFormat::Yaml, 95u32));
    let l2 = push_if(l1, brace, (DetectedFormat::Json, 90u32));
    let l3 = push_if(l2, bracket, (DetectedFormat::JsonArray, 90u32));
    let l4 = push_if(l3, toml, (DetectedFormat::Toml, 80u32));
    let l5 = push_if(l4, yaml && !dashes, (DetectedFormat::Yaml, 70u32));
    let l6 = push_if(l5, csv, (DetectedFormat::Csv, 60u32));
    let l7 = push_if(l6, logfmt, (DetectedFormat::Logfmt, 50u32));
    l7.push((DetectedFormat::PlainText, 10u32))
}

/// The candidates of `FormatDetector::detect`, highest confidence first.
pub open spec fn detect_spec(s: Seq<char>) -> Seq<(DetectedFormat, u32)> {
    let p = trim_start_seq(byte_prefix(s, 100));
    detect_list(
        starts_with_seq(p, seq!['-', '-', '-']),
        starts_with_seq(p, seq!['{']),
        starts_with_seq(p, seq!['[']),
        likely_toml(s),
        likely_yaml(s),
        likely_csv(s),
        likely_logfmt(s),
    )
}

pub fn char_utf8_len(c: char) -> (r: usize)
    ensures
        r == utf8_len(c),
{
    if (c as u32) < 0x80 {
        1
    } else if (c as u32) < 0x800 {
        2
    } else if (c as u32) < 0x10000 {
        3
    } else {
        4
    }
}

/// Whether byte `n` of `input` falls between characters or past its end,
/// as slicing `&input[..n]` needs.
pub fn on_byte_boundary(input: &str, n: usize) -> (r: bool)
    ensures
        r == is_byte_boundary(input@, n as nat),
{
    let v = chars_of(input);
    let mut k: usize = 0;
    let mut left: usize = n;
    proof {
        assert(v@.skip(0) == v@);
        assert(v@.take(0) =~= Seq::<char>::empty());
    }
    while k < v.len() && char_utf8_len(v[k]) <= left
        invariant
            k <= v.len(),
            left <= n,
            byte_len(v@.take(k as int)) + left == n,
            chars_within(v@, n as nat) == k + chars_within(v@.skip(k as int), left as nat),
        decreases v.len() - k,
    {
        let ghost rest = v@.skip(k as int);
        assert(rest.drop_first() == v@.skip(k + 1));
        assert(v@.take(k + 1).drop_last() == v@.take(k as int));
        left = left - char_utf8_len(v[k]);
        k = k + 1;
    }
    proof {
        let rest = v@.skip(k as int);
        assert(chars_within(rest, left as nat) == 0);
        if k < v.len() {
            lemma_byte_len_take(v@, (k + 1) as int);
            assert(v@.take(k + 1).drop_last() == v@.take(k as int));
        } else {
            assert(v@.take(k as int) == v@);
        }
    }
    k == v.len() || left == 0
}

/// Bytes of a prefix are at most the bytes of the whole.
proof fn lemma_byte_len_take(s: Seq<char>, j: int)
    requires
        0 <= j <= s.len(),
    ensures
        byte_len(s.take(j)) <= byte_len(s),
    decreases s.len(),
{
    if j < s.len() {
        lemma_byte_len_take(s.drop_last(), j);
        assert(s.drop_last().take(j) == s.take(j));
    } else {
        assert(s.take(j) == s);
    }
}

/// The characters of `v` within its first `n` bytes.
pub fn byte_prefix_exec(v: &Vec<char>, n: usize) -> (r: Vec<char>)
    ensures
        r@ == byte_prefix(v@, n as nat),
{
    let mut k: usize = 0;
    let mut left: usize = n;
    proof {
        assert(v@.skip(0) == v@);
    }
    while k < v.len() && char_utf8_len(v[k]) <= left
        invariant
            k <= v.len(),
            left <= n,
            chars_within(v@, n as nat) == k + chars_within(v@.skip(k as int), left as nat),
        decreases v.len() - k,
    {
        let ghost rest = v@.skip(k as int);
        assert(rest.drop_first() == v@.skip(k + 1));
        left = left - char_utf8_len(v[k]);
        k = k + 1;
    }
    proof {
        let rest = v@.skip(k as int);
        assert(chars_within(rest, left as nat) == 0);
    }
    slice_vec(v, 0, k)
}

impl FormatDetector {
    /// Likely formats of `input` with confidences in hundredths, highest
    /// confidence first and each format once; plain text always closes the
    /// list.
    ///
    /// The structural indicators look at the input's first 100 bytes, which
    /// must not split a character.
    pub fn detect(input: &str) -> (r: Vec<(DetectedFormat, u32)>)
        requires
            is_byte_boundary(input@, 100),
        ensures
            r@ == detect_spec(input@),
    {
        let v = chars_of(input);
        let prefix = byte_prefix_exec(&v, 100);
        let lead = lead_ws_exec(&prefix);
        let p = slice_vec(&prefix, lead, prefix.len());
        let dashes = starts_with(&p, &['-', '-', '-']);
        let mut r: Vec<(DetectedFormat, u32)> = Vec::new();
        let ghost spec_r = detect_spec(input@);
        proof {
            assert(['-', '-', '-']@ == seq!['-', '-', '-']);
            assert(['{']@ == seq!['{']);
            assert(['[']@ == seq!['[']);
            assert(p@ == trim_start_seq(byte_prefix(input@, 100)));
        }
        let brace = starts_with(&p, &['{']);
        let bracket = starts_with(&p, &['[']);
        if dashes {
            r.push((DetectedFormat::Yaml, 95));
        }
        if brace {
            r.push((DetectedFormat::Json, 90));
        }
        if bracket {
            r.push((DetectedFormat::JsonArray, 90));
        }
        if Self::is_likely_toml(input) {
            r.push((DetectedFormat::Toml, 80));
        }
        if Self::is_likely_yaml(input) && !dashes {
            r.push((DetectedFormat::Yaml, 70));
        }
        if Self::is_likely_csv(input) {
            r.push((DetectedFormat::Csv, 60));
        }
        if Self::is_likely_logfmt(input) {
            r.push((DetectedFormat::Logfmt, 50));
        }
        r.push((DetectedFormat::PlainText, 10));
        r
    }
}

/// A list ordered by confidence, highest first, naming each format once.
pub open spec fn sorted_distinct(l: Seq<(DetectedFormat, u32)>) -> bool {
    &&& forall|i: int, j: int| 0 <= i < j < l.len() ==> l[i].1 >= l[j].1
    &&& forall|i: int, j: int| 0 <= i < j < l.len() ==> l[i].0 != l[j].0
}

proof fn lemma_push_sorted(l: Seq<(DetectedFormat, u32)>, x: (DetectedFormat, u32))
    requires
        sorted_distinct(l),
        forall|i: int| 0 <= i < l.len() ==> l[i].1 >= x.1 && l[i].0 != x.0,
    ensures
        sorted_distinct(l.push(x)),
{
    let m = l.push(x);
    assert forall|i: int, j: int| 0 <= i < j < m.len() implies m[i].1 >= m[j].1 && m[i].0 != m[j].0 by {
        if j < l.len() {
            assert(m[i] == l[i] && m[j] == l[j]);
        } else {
            assert(m[i] == l[i] && m[j] == x);
        }
    }
}

/// The detector's list is ordered by confidence, highest first, names each
/// format at most once, and ends with plain text.
pub proof fn lemma_detect_sorted_and_distinct(s: Seq<char>)
    ensures
        sorted_distinct(detect_spec(s)),
        detect_spec(s).last() == (DetectedFormat::PlainText, 10u32),
{
    let p = trim_start_seq(byte_prefix(s, 100));
    let dashes = starts_with_seq(p, seq!['-', '-', '-']);
    let brace = starts_with_seq(p, seq!['{']);
    let bracket = starts_with_seq(p, seq!['[']);
    if brace && bracket {
        assert(p.take(1)[0] == p[0]);
        assert(p.take(3)[0] == p[0]);
        assert(p[0] == '{' && p[0] == '[');
    }
    if brace && dashes {
        assert(p.take(1)[0] == p[0]);
        assert(p.take(3)[0] == p[0]);
        assert(p[0] == '{' && p[0] == '-');
    }
    if bracket && dashes {
        assert(p.take(1)[0] == p[0]);
        assert(p.take(3)[0] == p[0]);
        assert(p[0] == '[' && p[0] == '-');
    }
    let l0: Seq<(DetectedFormat, u32)> = seq![];
    let l1 = push_if(l0, dashes, (DetectedFormat::Yaml, 95u32));
    if dashes {
        lemma_push_sorted(l0, (DetectedFormat::Yaml, 95u32));
    }
    let l2 = push_if(l1, brace, (DetectedFormat::Json, 90u32));
    if brace {
        lemma_push_sorted(l1, (DetectedFormat::Json, 90u32));
    }
    let l3 = push_if(l2, bracket, (DetectedFormat::JsonArray, 90u32));
    if bracket {
        lemma_push_sorted(l2, (DetectedFormat::JsonArray, 90u32));
    }
    let l4 = push_if(l3, likely_toml(s), (DetectedFormat::Toml, 80u32));
    if likely_toml(s) {
        lemma_push_sorted(l3, (DetectedFormat::Toml, 80u32));
    }
    let y = likely_yaml(s) && !dashes;
    let l5 = push_if(l4, y, (DetectedFormat::Yaml, 70u32));
    if y {
        lemma_push_sorted(l4, (DetectedFormat::Yaml, 70u32));
    }
    let l6 = push_if(l5, likely_csv(s), (DetectedFormat::Csv, 60u32));
    if likely_csv(s) {
        lemma_push_sorted(l5, (DetectedFormat::Csv, 60u32));
    }
    let l7 = push_if(l6, likely_logfmt(s), (DetectedFormat::Logfmt, 50u32));
    if likely_logfmt(s) {
        lemma_push_sorted(l6, (DetectedFormat::Logfmt, 50u32));
    }
    lemma_push_sorted(l7, (DetectedFormat::PlainText, 10u32));
}

} // verus!
