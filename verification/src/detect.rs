//! The one format detector.
//!
//! Detection runs on the input, never on the expression. It applies a
//! precedence table to the first non-blank line that does not start with
//! `#` (the probe); the first row that matches chooses the format:
//!
//! 1. JSON: the first JSON value parses (it may span lines) and only
//!    whitespace or further `{…}`/`[…]` values follow it on its last line;
//! 2. logfmt: the line parses as `key=value` pairs;
//! 3. TOML: a `key = value` line, or a `[table]` line followed by one, that
//!    parses;
//! 4. YAML: a block mapping `key: value`, a `- item`, `---`, or a `{…}`
//!    flow map;
//! 5. CSV: the line has commas and parses as a CSV row;
//! 6. text: everything else.
//!
//! Every line detection reads is replayed to the chosen format.

use vstd::prelude::*;
use crate::csv_parser::{csv_fields, parse_csv_line};
use crate::format_detector::{byte_len, utf8_len, char_utf8_len};
use crate::json_stream::{
    chunk_lines, joined_lines, json_opens, line_texts, lemma_chunk_lines, opens_json_input, read_chunk,
    texts,
};
use crate::lines::{blank_text, comment_text, line_view, lines_view, numbered, Line, LineSource};
use crate::parse::{logfmt_spec, parse_logfmt};
use crate::text::{
    chars_of, contains, contains_seq, count_char, count_of, first_index_of, has_char, is_whitespace, lines_of,
    is_ws, lemma_first_index_of, push_char, trim, trim_seq,
};

verus! {

/// An input format.
#[derive(Debug, Clone, Copy, PartialEq, Eq, Hash, Structural)]
pub enum Format {
    Json,
    Logfmt,
    Toml,
    Yaml,
    Csv,
    Text,
}

/// The lower-case name of `f`.
pub open spec fn format_name(f: Format) -> Seq<char> {
    match f {
        Format::Json => seq!['j', 's', 'o', 'n'],
        Format::Logfmt => seq!['l', 'o', 'g', 'f', 'm', 't'],
        Format::Toml => seq!['t', 'o', 'm', 'l'],
        Format::Yaml => seq!['y', 'a', 'm', 'l'],
        Format::Csv => seq!['c', 's', 'v'],
        Format::Text => seq!['t', 'e', 'x', 't'],
    }
}

/// The row of `f` in the precedence table.
pub open spec fn format_row(f: Format) -> u8 {
    match f {
        Format::Json => 1,
        Format::Logfmt => 2,
        Format::Toml => 3,
        Format::Yaml => 4,
        Format::Csv => 5,
        Format::Text => 6,
    }
}

impl Format {
    /// Lower-case name, as in the format flags.
    pub fn name(self) -> (r: &'static str)
        ensures
            r@ == format_name(self),
    {
        match self {
            Format::Json => {
                proof {
                    reveal_strlit("json");
                }
                "json"
            },
            Format::Logfmt => {
                proof {
                    reveal_strlit("logfmt");
                }
                "logfmt"
            },
            Format::Toml => {
                proof {
                    reveal_strlit("toml");
                }
                "toml"
            },
            Format::Yaml => {
                proof {
                    reveal_strlit("yaml");
                }
                "yaml"
            },
            Format::Csv => {
                proof {
                    reveal_strlit("csv");
                }
                "csv"
            },
            Format::Text => {
                proof {
                    reveal_strlit("text");
                }
                "text"
            },
        }
    }

    /// This format's row in the precedence table.
    pub fn precedence_row(self) -> (r: u8)
        ensures
            r == format_row(self),
    {
        match self {
            Format::Json => 1,
            Format::Logfmt => 2,
            Format::Toml => 3,
            Format::Yaml => 4,
            Format::Csv => 5,
            Format::Text => 6,
        }
    }
}

/// Neither blank nor a `#` line.
pub open spec fn meaningful(t: Seq<char>) -> bool {
    !blank_text(t) && !comment_text(t)
}

/// Index of the first meaningful line of `ts` at or after `from`.
pub open spec fn next_meaningful_index(ts: Seq<Seq<char>>, from: int) -> Option<int>
    decreases ts.len() - from,
{
    if from < 0 || from >= ts.len() {
        None
    } else if meaningful(ts[from]) {
        Some(from)
    } else {
        next_meaningful_index(ts, from + 1)
    }
}

pub proof fn lemma_next_meaningful_index(ts: Seq<Seq<char>>, from: int)
    requires
        0 <= from,
    ensures
        match next_meaningful_index(ts, from) {
            Some(i) => from <= i < ts.len() && meaningful(ts[i]) && forall|k: int|
                from <= k < i ==> !meaningful(#[trigger] ts[k]),
            None => forall|k: int| from <= k < ts.len() ==> !meaningful(#[trigger] ts[k]),
        },
    decreases ts.len() - from,
{
    if from < ts.len() && !meaningful(ts[from]) {
        lemma_next_meaningful_index(ts, from + 1);
    }
}

/// Whether `serde`'s `toml` reads `text` as a table.
pub uninterp spec fn toml_table(text: Seq<char>) -> bool;

/// Trusted: `toml::from_str::<toml::Table>(text).is_ok()`. Which texts are
/// TOML is the crate's grammar and is not restated; the answer is named
/// `toml_table`.
#[verifier::external_body]
fn parses_as_toml_table(text: &str) -> (r: bool)
    ensures
        r == toml_table(text@),
{
    toml::from_str::<toml::Table>(text).is_ok()
}

/// A trimmed line that starts with `[` and ends with `]`.
pub open spec fn table_header(t: Seq<char>) -> bool {
    let l = trim_seq(t);
    l.len() > 0 && l[0] == '[' && l.last() == ']'
}

fn is_table_header(line: &[char]) -> (r: bool)
    ensures
        r == table_header(line@),
{
    let l = trim(line);
    l.len() > 0 && l[0] == '[' && l[l.len() - 1] == ']'
}

/// Row 3 for the probe `ts[p]`: a `key = value` line that parses, or a
/// table header whose next meaningful line is a pair that parses with it.
pub open spec fn toml_opens(ts: Seq<Seq<char>>, p: int) -> bool {
    let probe = ts[p];
    if !table_header(probe) {
        probe.contains('=') && toml_table(probe)
    } else {
        match next_meaningful_index(ts, p + 1) {
            None => false,
            Some(q) => ts[q].contains('=') && !table_header(ts[q]) && toml_table(
                probe + seq!['\n'] + ts[q],
            ),
        }
    }
}

/// Whether `rest` starts with `:` followed by whitespace or nothing.
pub open spec fn ends_key(rest: Seq<char>) -> bool {
    rest.len() > 0 && rest[0] == ':' && (rest.len() == 1 || is_ws(rest[1]))
}

/// Index of the first `:` at or after `from` that ends a key.
pub open spec fn first_key_colon(line: Seq<char>, from: int) -> Option<int>
    decreases line.len() - from,
{
    if from < 0 || from >= line.len() {
        None
    } else if line[from] == ':' && ends_key(line.skip(from)) {
        Some(from)
    } else {
        first_key_colon(line, from + 1)
    }
}

/// Index of the `:` ending a plain key: the first `:` that ends a key,
/// when some text comes before it and that text holds no ` #`.
pub open spec fn plain_key_end(line: Seq<char>) -> Option<int> {
    match first_key_colon(line, 0) {
        Some(i) => if i > 0 && !contains_seq(line.take(i), seq![' ', '#']) {
            Some(i)
        } else {
            None
        },
        None => None,
    }
}

/// Characters that cannot start a plain YAML key.
pub open spec fn yaml_indicator(c: char) -> bool {
    seq!['[', ']', '{', '}', ',', '#', '&', '*', '!', '|', '>', '%', '@', '`'].contains(c)
}

/// A `key:` followed by whitespace or the end of the line, where the key is
/// quoted or a plain scalar.
pub open spec fn block_mapping(line: Seq<char>) -> bool {
    if line.len() == 0 {
        false
    } else if line[0] == '"' || line[0] == '\'' {
        match first_index_of(line.drop_first(), line[0]) {
            Some(close) => ends_key(line.skip(close + 2)),
            None => false,
        }
    } else if yaml_indicator(line[0]) {
        false
    } else {
        plain_key_end(line) is Some
    }
}

/// Row 4: `---`, a `- item`, a `{…}` flow map or a block mapping.
pub open spec fn yaml_opens(probe: Seq<char>) -> bool {
    let l = trim_seq(probe);
    ||| l == seq!['-', '-', '-']
    ||| (l.len() >= 4 && l.take(4) == seq!['-', '-', '-', ' '])
    ||| l == seq!['-']
    ||| (l.len() >= 2 && l.take(2) == seq!['-', ' '])
    ||| (l.len() > 0 && l[0] == '{' && l.last() == '}')
    ||| block_mapping(l)
}

/// Row 5: the line has commas, its trimmed text has more bytes than
/// commas, and it parses as a CSV row.
pub open spec fn csv_opens(probe: Seq<char>) -> bool {
    let commas = count_char(probe, ',');
    commas > 0 && byte_len(trim_seq(probe)) > commas && csv_fields(probe) is Some
}

/// The format the precedence table chooses for the lines `ts`.
pub open spec fn detected(ts: Seq<Seq<char>>) -> Format {
    match next_meaningful_index(ts, 0) {
        None => Format::Text,
        Some(p) => {
            let k = chunk_lines(ts.skip(p));
            if json_opens(joined_lines(ts.skip(p).take(k))) {
                Format::Json
            } else if logfmt_spec(ts[p]) is Some {
                Format::Logfmt
            } else if toml_opens(ts, p) {
                Format::Toml
            } else if yaml_opens(ts[p]) {
                Format::Yaml
            } else if csv_opens(ts[p]) {
                Format::Csv
            } else {
                Format::Text
            }
        },
    }
}

/// The format the precedence table chooses for `input`.
///
/// A YAML or TOML guess whose first document fails to parse is read as
/// text by the record reader; this reports the guess.
pub fn detect_format(input: &str) -> (r: Format)
    ensures
        r == detected(lines_of(input@)),
{
    let mut source = LineSource::new(input);
    proof {
        let ls = lines_of(input@);
        assert(texts(numbered(ls, 1)) == ls);
    }
    detect(&mut source)
}

/// Choose the format of `source`, replaying every line read: the source
/// serves afterwards exactly what it served before.
pub fn detect(source: &mut LineSource) -> (r: Format)
    requires
        old(source).wf(),
    ensures
        final(source).wf(),
        final(source).queue() == old(source).queue(),
        r == detected(texts(old(source).queue())),
{
    let mut read: Vec<Line> = Vec::new();
    let format = choose_format(source, &mut read);
    source.replay(read);
    format
}

proof fn lemma_texts_of_lines(lines: Seq<Line>)
    ensures
        line_texts(lines) == texts(lines_view(lines)),
{
    assert(line_texts(lines) =~= texts(lines_view(lines)));
}

proof fn lemma_texts_split(q: Seq<(nat, Seq<char>)>, j: int)
    requires
        0 <= j <= q.len(),
    ensures
        texts(q.skip(j)) == texts(q).skip(j),
        texts(q.take(j)) == texts(q).take(j),
{
    assert(texts(q.skip(j)) =~= texts(q).skip(j));
    assert(texts(q.take(j)) =~= texts(q).take(j));
}

fn choose_format(source: &mut LineSource, read: &mut Vec<Line>) -> (r: Format)
    requires
        old(source).wf(),
        old(read)@.len() == 0,
    ensures
        final(source).wf(),
        lines_view(final(read)@) + final(source).queue() == old(source).queue(),
        r == detected(texts(old(source).queue())),
{
    let ghost q = source.queue();
    let ghost ts = texts(q);
    proof {
        lemma_next_meaningful_index(ts, 0);
        assert(lines_view(read@) == Seq::<(nat, Seq<char>)>::empty());
    }
    let probe = match next_meaningful(source, read) {
        None => {
            proof {
                assert(lines_view(read@) + source.queue() =~= q);
            }
            return Format::Text;
        },
        Some(probe) => probe,
    };
    let ghost p = next_meaningful_index(ts, 0)->Some_0;
    let ghost k = chunk_lines(ts.skip(p));
    proof {
        assert(ts[p] == probe.text@);
        assert(read@.len() == p + 1);
        lemma_texts_split(q, p + 1);
        assert(seq![probe.text@] + texts(q.skip(p + 1)) =~= ts.skip(p));
        lemma_chunk_lines(ts.skip(p));
        assert(ts.skip(p).len() == q.len() - p);
    }
    let p_exec = read.len() - 1;
    let json = opens_json(source, read);
    proof {
        assert(q.take(p + 1) + q.skip(p + 1).take(k - 1) =~= q.take(p + k));
        assert(q.skip(p + 1).skip(k - 1) =~= q.skip(p + k));
        assert(q.take(p + k) + q.skip(p + k) =~= q);
        assert(lines_view(read@) + source.queue() == q);
    }
    if json {
        return Format::Json;
    }
    let pv = chars_of(probe.text.as_str());
    if parse_logfmt(probe.text.as_str()).is_some() {
        return Format::Logfmt;
    }
    proof {
        assert(lines_view(read@)[p] == q[p]);
        assert forall|m: int| 0 <= m < p implies !meaningful(#[trigger] read@[m].text@) by {
            assert(lines_view(read@)[m] == q[m]);
            assert(read@[m].text@ == ts[m]);
        }
    }
    let toml = opens_toml(&probe, p_exec, source, read);
    if toml {
        return Format::Toml;
    }
    if opens_yaml(&pv) {
        return Format::Yaml;
    }
    if opens_csv(probe.text.as_str()) {
        return Format::Csv;
    }
    Format::Text
}

/// Read up to and including the next line that is neither blank nor a `#`
/// line.
#[verifier::loop_isolation(false)]
fn next_meaningful(source: &mut LineSource, read: &mut Vec<Line>) -> (r: Option<Line>)
    requires
        old(source).wf(),
    ensures
        final(source).wf(),
        ({
            let q = old(source).queue();
            match next_meaningful_index(texts(q), 0) {
                None => r is None && final(source).queue().len() == 0 && lines_view(final(read)@)
                    == lines_view(old(read)@) + q,
                Some(i) => (r matches Some(l) && line_view(l) == q[i] && lines_view(final(read)@)
                    == lines_view(old(read)@) + q.take(i + 1) && final(source).queue() == q.skip(
                    i + 1,
                ) && final(read)@.len() == old(read)@.len() + i + 1),
            }
        }),
{
    let ghost q = source.queue();
    let ghost ts = texts(q);
    let ghost r0 = lines_view(read@);
    let ghost n0 = read@.len();
    let mut j: usize = 0;
    proof {
        assert(q.skip(0) == q);
        assert(q.take(0) == Seq::<(nat, Seq<char>)>::empty());
        assert(r0 + q.take(0) == r0);
    }
    loop
        invariant
            source.wf(),
            j <= q.len(),
            source.queue() == q.skip(j as int),
            lines_view(read@) == r0 + q.take(j as int),
            read@.len() == n0 + j,
            ts == texts(q),
            next_meaningful_index(ts, 0) == next_meaningful_index(ts, j as int),
        decreases q.len() - j,
    {
        let ghost before = source.queue();
        match source.next_line() {
            None => {
                proof {
                    assert(q.skip(j as int).len() == 0);
                    assert(j == q.len());
                    assert(q.take(j as int) == q);
                    assert(ts.len() == q.len());
                    assert(next_meaningful_index(ts, j as int) is None);
                }
                return None;
            },
            Some(line) => {
                proof {
                    assert(before[0] == q[j as int]);
                    assert(q.skip(j as int).drop_first() == q.skip(j + 1));
                    assert(q.take(j + 1) == q.take(j as int).push(q[j as int]));
                    assert(ts[j as int] == line.text@);
                }
                let copy = line.copy();
                let ghost prev = read@;
                read.push(copy);
                proof {
                    assert(lines_view(read@) =~= lines_view(prev).push(line_view(copy)));
                    assert(lines_view(read@) =~= r0 + q.take(j + 1));
                }
                if !line.is_blank() && !line.is_comment() {
                    proof {
                        assert(meaningful(ts[j as int]));
                        assert(next_meaningful_index(ts, j as int) == Some(j as int));
                    }
                    return Some(line);
                }
                let _len = read.len();
                j = j + 1;
            },
        }
    }
}

/// Row 1. The probe is the last line in `read`; the chunk it opens is read
/// and kept in `read`.
fn opens_json(source: &mut LineSource, read: &mut Vec<Line>) -> (r: bool)
    requires
        old(source).wf(),
        old(read)@.len() > 0,
    ensures
        final(source).wf(),
        ({
            let q = old(source).queue();
            let ts = seq![old(read)@.last().text@] + texts(q);
            let k = chunk_lines(ts);
            &&& 1 <= k <= q.len() + 1
            &&& lines_view(final(read)@) == lines_view(old(read)@) + q.take(k - 1)
            &&& final(source).queue() == q.skip(k - 1)
            &&& r == json_opens(joined_lines(ts.take(k)))
        }),
{
    let ghost q = source.queue();
    let ghost before = read@;
    let probe = read.pop().unwrap();
    let ghost ts = seq![probe.text@] + texts(q);
    let mut chunk = read_chunk(probe, source);
    let ghost k = chunk_lines(ts);
    proof {
        lemma_texts_of_lines(chunk@);
        assert(texts(seq![line_view(probe)] + q.take(k - 1)) =~= ts.take(k));
    }
    let opens = opens_json_input(chunk.as_slice());
    let ghost c = chunk@;
    read.append(&mut chunk);
    proof {
        assert(lines_view(read@) =~= lines_view(before.drop_last()) + lines_view(c));
        assert(before =~= before.drop_last().push(probe));
        assert(lines_view(before) =~= lines_view(before.drop_last()) + seq![line_view(probe)]);
        assert(lines_view(read@) =~= lines_view(before) + q.take(k - 1));
    }
    opens
}

fn meaningful_line(line: &Line) -> (r: bool)
    ensures
        r == meaningful(line.text@),
{
    !line.is_blank() && !line.is_comment()
}

/// Row 3. `read` holds every line up to the probe, at index `p`, and the
/// probe's chunk; a further line is read only when the probe is a table
/// header and no later line in `read` is meaningful.
#[verifier::loop_isolation(false)]
fn opens_toml(probe: &Line, p: usize, source: &mut LineSource, read: &mut Vec<Line>) -> (r: bool)
    requires
        old(source).wf(),
        p < old(read)@.len(),
        line_view(*probe) == lines_view(old(read)@)[p as int],
        meaningful(probe.text@),
        forall|k: int| 0 <= k < p ==> !meaningful(#[trigger] old(read)@[k].text@),
    ensures
        final(source).wf(),
        lines_view(final(read)@) + final(source).queue() == lines_view(old(read)@) + old(
            source,
        ).queue(),
        r == toml_opens(texts(lines_view(old(read)@) + old(source).queue()), p as int),
{
    let ghost all = lines_view(read@) + source.queue();
    let ghost ts = texts(all);
    proof {
        assert(ts[p as int] == probe.text@);
    }
    let pv = chars_of(probe.text.as_str());
    if !is_table_header(&pv) {
        if !has_char(&pv, '=') {
            return false;
        }
        return parses_as_toml_table(probe.text.as_str());
    }
    let ghost n = read@.len();
    let n_exec = read.len();
    let mut i: usize = p + 1;
    while i < read.len()
        invariant
            p < i <= read@.len(),
            n == read@.len(),
            all == lines_view(read@) + source.queue(),
            ts == texts(all),
            forall|k: int| p < k < i ==> !meaningful(#[trigger] ts[k]),
        decreases read.len() - i,
    {
        proof {
            assert(ts[i as int] == read@[i as int].text@);
        }
        if meaningful_line(&read[i]) {
            proof {
                assert(next_meaningful_index(ts, p + 1) == Some(i as int)) by {
                    lemma_next_meaningful_index(ts, p + 1);
                    lemma_no_earlier(ts, p + 1, i as int);
                }
            }
            return toml_pair(probe, &read[i]);
        }
        i = i + 1;
    }
    let ghost rest = source.queue();
    let ghost before = read@;
    let pair = next_meaningful(source, read);
    proof {
        lemma_next_meaningful_index(ts, p + 1);
        lemma_next_meaningful_index(texts(rest), 0);
        assert(texts(rest) =~= ts.skip(n as int));
        lemma_shifted(ts, n as int, p + 1);
    }
    match pair {
        None => {
            proof {
                assert(lines_view(read@) + source.queue() =~= all);
            }
            false
        },
        Some(pair) => {
            proof {
                let i2 = next_meaningful_index(texts(rest), 0)->Some_0;
                assert(rest.take(i2 + 1) + rest.skip(i2 + 1) =~= rest);
                assert(lines_view(read@) + source.queue() =~= all);
                assert(ts[n + i2] == texts(rest)[i2]);
            }
            toml_pair(probe, &pair)
        },
    }
}

proof fn lemma_no_earlier(ts: Seq<Seq<char>>, from: int, i: int)
    requires
        0 <= from <= i < ts.len(),
        meaningful(ts[i]),
        forall|k: int| from <= k < i ==> !meaningful(#[trigger] ts[k]),
    ensures
        next_meaningful_index(ts, from) == Some(i),
    decreases i - from,
{
    if from < i {
        lemma_no_earlier(ts, from + 1, i);
    }
}

/// With nothing meaningful in `ts[from..n]`, the next meaningful line from
/// `from` is the next one in `ts.skip(n)`, shifted.
proof fn lemma_shifted(ts: Seq<Seq<char>>, n: int, from: int)
    requires
        0 <= from <= n <= ts.len(),
        forall|k: int| from <= k < n ==> !meaningful(#[trigger] ts[k]),
    ensures
        next_meaningful_index(ts, from) == match next_meaningful_index(ts.skip(n), 0) {
            Some(i) => Some(i + n),
            None => None::<int>,
        },
    decreases ts.len() - from,
{
    if from < n {
        lemma_shifted(ts, n, from + 1);
    } else {
        lemma_skip_meaningful(ts, n, 0);
    }
}

proof fn lemma_skip_meaningful(ts: Seq<Seq<char>>, n: int, j: int)
    requires
        0 <= n <= ts.len(),
        0 <= j,
    ensures
        next_meaningful_index(ts, n + j) == match next_meaningful_index(ts.skip(n), j) {
            Some(i) => Some(i + n),
            None => None::<int>,
        },
    decreases ts.len() - n - j,
{
    if n + j < ts.len() {
        assert(ts.skip(n)[j] == ts[n + j]);
        if !meaningful(ts[n + j]) {
            lemma_skip_meaningful(ts, n, j + 1);
        }
    }
}

/// A table header and a following `key = value` line that parse together.
fn toml_pair(probe: &Line, pair: &Line) -> (r: bool)
    ensures
        r == (pair.text@.contains('=') && !table_header(pair.text@) && toml_table(
            probe.text@ + seq!['\n'] + pair.text@,
        )),
{
    let v = chars_of(pair.text.as_str());
    if !has_char(&v, '=') || is_table_header(&v) {
        return false;
    }
    let mut text = probe.text.clone();
    push_char(&mut text, '\n');
    text.append(pair.text.as_str());
    proof {
        assert(text@ =~= probe.text@ + seq!['\n'] + pair.text@);
    }
    parses_as_toml_table(text.as_str())
}

fn ends_key_at(line: &[char], at: usize) -> (r: bool)
    requires
        at <= line.len(),
    ensures
        r == ends_key(line@.skip(at as int)),
{
    at < line.len() && line[at] == ':' && (at + 1 == line.len() || is_whitespace(line[at + 1]))
}

fn plain_key_end_exec(line: &[char]) -> (r: Option<usize>)
    ensures
        match r {
            Some(i) => plain_key_end(line@) == Some(i as int),
            None => plain_key_end(line@) is None,
        },
{
    let mut i: usize = 0;
    while i < line.len()
        invariant
            i <= line.len(),
            first_key_colon(line@, 0) == first_key_colon(line@, i as int),
        decreases line.len() - i,
    {
        if line[i] == ':' && ends_key_at(line, i) {
            if i == 0 {
                return None;
            }
            let before = crate::text::slice_vec(line, 0, i);
            proof {
                assert(before@ == line@.take(i as int));
                assert([' ', '#']@ == seq![' ', '#']);
            }
            if contains(&before, &[' ', '#']) {
                return None;
            }
            return Some(i);
        }
        i = i + 1;
    }
    None
}

fn is_yaml_indicator(c: char) -> (r: bool)
    ensures
        r == yaml_indicator(c),
{
    let set = ['[', ']', '{', '}', ',', '#', '&', '*', '!', '|', '>', '%', '@', '`'];
    proof {
        assert(set@ == seq!['[', ']', '{', '}', ',', '#', '&', '*', '!', '|', '>', '%', '@', '`']);
    }
    has_char(&set, c)
}

#[verifier::loop_isolation(false)]
fn is_block_mapping(line: &[char]) -> (r: bool)
    ensures
        r == block_mapping(line@),
{
    if line.len() == 0 {
        return false;
    }
    let first = line[0];
    if first == '"' || first == '\'' {
        let mut k: usize = 1;
        while k < line.len()
            invariant
                1 <= k <= line.len(),
                forall|m: int| 1 <= m < k ==> line@[m] != first,
            decreases line.len() - k,
        {
            if line[k] == first {
                proof {
                    let s = line@.drop_first();
                    lemma_first_index_of(s, first);
                    assert forall|m: int| 0 <= m < k - 1 implies s[m] != first by {
                        assert(s[m] == line@[m + 1]);
                    }
                    assert(s[k - 1] == first);
                    match first_index_of(s, first) {
                        Some(c) => {
                            if c < k - 1 {
                                assert(s[c] != first);
                            }
                            if c > k - 1 {
                                assert(s[k - 1] != first);
                            }
                            assert(c == k - 1);
                        },
                        None => {
                            assert(s[k - 1] != first);
                        },
                    }
                    assert(first_index_of(line@.drop_first(), line@[0]) == Some((k - 1) as int));
                    assert(line@.skip(k + 1) == line@.skip((k - 1) + 2));
                }
                return ends_key_at(line, k + 1);
            }
            k = k + 1;
        }
        proof {
            let s = line@.drop_first();
            lemma_first_index_of(s, first);
            match first_index_of(s, first) {
                Some(c) => {
                    assert(s[c] == line@[c + 1]);
                },
                None => {},
            }
        }
        return false;
    }
    if is_yaml_indicator(first) {
        return false;
    }
    plain_key_end_exec(line).is_some()
}

fn starts_with_chars(l: &[char], prefix: &[char]) -> (r: bool)
    ensures
        r == (l@.len() >= prefix@.len() && l@.take(prefix@.len() as int) == prefix@),
{
    let r = crate::text::starts_with(l, prefix);
    proof {
        if l@.len() >= prefix@.len() && l@.take(prefix@.len() as int) == prefix@ {
            assert forall|i: int| 0 <= i < prefix@.len() implies l@[i] == prefix@[i] by {
                assert(l@.take(prefix@.len() as int)[i] == l@[i]);
            }
        }
        if r {
            assert(l@.take(prefix@.len() as int) =~= prefix@);
        }
    }
    r
}

/// Row 4.
fn opens_yaml(probe: &[char]) -> (r: bool)
    ensures
        r == yaml_opens(probe@),
{
    let l = trim(probe);
    proof {
        assert(['-', '-', '-']@ == seq!['-', '-', '-']);
        assert(['-', '-', '-', ' ']@ == seq!['-', '-', '-', ' ']);
        assert(['-']@ == seq!['-']);
        assert(['-', ' ']@ == seq!['-', ' ']);
    }
    let dashes = l.len() == 3 && starts_with_chars(&l, &['-', '-', '-']);
    proof {
        if l@ == seq!['-', '-', '-'] {
            assert(l@.take(3) == l@);
        }
        if dashes {
            assert(l@ =~= l@.take(3));
        }
    }
    let dash = l.len() == 1 && l[0] == '-';
    proof {
        if l@ == seq!['-'] {
            assert(l@[0] == '-');
        }
        if dash {
            assert(l@ =~= seq!['-']);
        }
    }
    dashes || starts_with_chars(&l, &['-', '-', '-', ' ']) || dash || starts_with_chars(
        &l,
        &['-', ' '],
    ) || (l.len() > 0 && l[0] == '{' && l[l.len() - 1] == '}') || is_block_mapping(&l)
}

proof fn lemma_byte_len_prefix(s: Seq<char>, j: int)
    requires
        0 <= j <= s.len(),
    ensures
        byte_len(s.take(j)) <= byte_len(s),
    decreases s.len(),
{
    if j < s.len() {
        assert(s.drop_last().take(j) == s.take(j));
        lemma_byte_len_prefix(s.drop_last(), j);
    } else {
        assert(s.take(j) == s);
    }
}

/// Whether the UTF-8 encoding of `v` takes more than `n` bytes.
pub fn byte_len_exceeds(v: &[char], n: usize) -> (r: bool)
    ensures
        r == (byte_len(v@) > n),
{
    let mut sum: usize = 0;
    let mut i: usize = 0;
    while i < v.len()
        invariant
            i <= v.len(),
            sum <= n,
            sum == byte_len(v@.take(i as int)),
        decreases v.len() - i,
    {
        let l = char_utf8_len(v[i]);
        proof {
            assert(v@.take(i + 1).drop_last() == v@.take(i as int));
        }
        if l > n - sum {
            proof {
                lemma_byte_len_prefix(v@, i + 1);
            }
            return true;
        }
        sum = sum + l;
        i = i + 1;
    }
    proof {
        assert(v@.take(v.len() as int) == v@);
    }
    false
}

/// Row 5.
fn opens_csv(probe: &str) -> (r: bool)
    ensures
        r == csv_opens(probe@),
{
    let v = chars_of(probe);
    let commas = count_of(&v, ',');
    if commas == 0 {
        return false;
    }
    let t = trim(&v);
    if !byte_len_exceeds(&t, commas) {
        return false;
    }
    parse_csv_line(probe).is_some()
}

} // verus!
