//! CSV lines: fields of one line, and whether a first row is a header.

use vstd::prelude::*;
use crate::detect::Format;
use crate::json_stream::texts;
use crate::lines::{Line, LineSource, line_view, lines_view};
use crate::record::{chars_string, content_wf, texts_of, Content, CsvHeader, Record};
use crate::records::{next_row_line, parse_error, row_index, RecordError};
use std::collections::VecDeque;
use crate::text::{
    chars_of, contains, contains_seq, has_char, is_whitespace, is_ws, trim, trim_seq,
};

verus! {

/// The fields the `csv` crate reads from `line` as the first record of an
/// input with no header row, or `None` when it reads no record.
pub uninterp spec fn csv_fields(line: Seq<char>) -> Option<Seq<Seq<char>>>;

/// The views of `fields`.
pub open spec fn fields_view(fields: Seq<String>) -> Seq<Seq<char>> {
    fields.map_values(|f: String| f@)
}

/// Parse one CSV line into its fields.
///
/// Trusted: `csv::Reader::records` (with `has_headers(false)`) over the
/// line's bytes, its first record taken; the fields are exactly that
/// record's, named `csv_fields`. Which fields a line holds (quoting,
/// doubled quotes) is the crate's and is not restated here.
#[verifier::external_body]
pub fn parse_csv_line(line: &str) -> (r: Option<Vec<String>>)
    ensures
        match r {
            Some(fields) => csv_fields(line@) == Some(fields_view(fields@)),
            None => csv_fields(line@) is None,
        },
{
    let mut reader = csv::ReaderBuilder::new().has_headers(false).from_reader(line.as_bytes());
    let record = reader.records().next().transpose().ok()??;
    Some(record.iter().map(|field| field.to_string()).collect())
}

/// Whether `char::is_alphabetic` holds of `c`.
pub uninterp spec fn alphabetic(c: char) -> bool;

/// Whether `char::is_numeric` holds of `c`.
pub uninterp spec fn numeric(c: char) -> bool;

/// Whether `char::is_uppercase` holds of `c`.
pub uninterp spec fn uppercase(c: char) -> bool;

/// `char::is_alphabetic` (Unicode `Alphabetic`); on ASCII, exactly the
/// letters.
///
/// Trusted: std's `char::is_alphabetic`; its documentation gives the ASCII
/// case, the rest is the Unicode table, named `alphabetic`.
#[verifier::external_body]
pub(crate) fn is_alphabetic(c: char) -> (r: bool)
    ensures
        r == alphabetic(c),
        (c as u32) < 128 ==> (r <==> (('a' <= c && c <= 'z') || ('A' <= c && c <= 'Z'))),
{
    c.is_alphabetic()
}

/// `char::is_numeric` (the Unicode number categories); on ASCII, exactly
/// the digits.
///
/// Trusted: std's `char::is_numeric`; its documentation gives the ASCII
/// case, the rest is the Unicode table, named `numeric`.
#[verifier::external_body]
pub(crate) fn char_is_numeric(c: char) -> (r: bool)
    ensures
        r == numeric(c),
        (c as u32) < 128 ==> (r <==> ('0' <= c && c <= '9')),
{
    c.is_numeric()
}

/// `char::is_uppercase` (Unicode `Uppercase`); on ASCII, exactly `A`-`Z`.
///
/// Trusted: std's `char::is_uppercase`; its documentation gives the ASCII
/// case, the rest is the Unicode table, named `uppercase`.
#[verifier::external_body]
fn is_uppercase(c: char) -> (r: bool)
    ensures
        r == uppercase(c),
        (c as u32) < 128 ==> (r <==> ('A' <= c && c <= 'Z')),
{
    c.is_uppercase()
}

/// An ASCII digit.
pub open spec fn ascii_digit(c: char) -> bool {
    '0' <= c && c <= '9'
}

/// Only digits, signs, dots and whitespace, with at least one digit.
pub open spec fn numeric_text(f: Seq<char>) -> bool {
    &&& f.len() > 0
    &&& exists|i: int| 0 <= i < f.len() && ascii_digit(f[i])
    &&& forall|i: int|
        0 <= i < f.len() ==> (ascii_digit(#[trigger] f[i]) || f[i] == '.' || f[i] == '-' || f[i]
            == '+' || is_ws(f[i]))
}

/// Numeric, an email, a URL or a hyphenated value without underscores.
pub open spec fn data_like_text(f: Seq<char>) -> bool {
    ||| numeric_text(f)
    ||| f.contains('@')
    ||| contains_seq(f, seq!['h', 't', 't', 'p'])
    ||| (f.contains('-') && !f.contains('_'))
}

/// Returns true if the field contains only numeric data (with optional
/// signs, dots, or whitespace).
pub fn is_numeric(field: &str) -> (r: bool)
    ensures
        r == numeric_text(field@),
{
    let f = chars_of(field);
    is_numeric_chars(&f)
}

fn is_numeric_chars(f: &Vec<char>) -> (r: bool)
    ensures
        r == numeric_text(f@),
{
    if f.len() == 0 {
        return false;
    }
    let mut any_digit = false;
    let mut i: usize = 0;
    while i < f.len()
        invariant
            i <= f.len(),
            any_digit == exists|k: int| 0 <= k < i && ascii_digit(f@[k]),
            forall|k: int|
                0 <= k < i ==> (ascii_digit(#[trigger] f@[k]) || f@[k] == '.' || f@[k] == '-'
                    || f@[k] == '+' || is_ws(f@[k])),
        decreases f.len() - i,
    {
        let c = f[i];
        if '0' <= c && c <= '9' {
            any_digit = true;
        } else if !(c == '.' || c == '-' || c == '+' || is_whitespace(c)) {
            return false;
        }
        i = i + 1;
    }
    any_digit
}

/// Returns true if the field has data-like characteristics (numeric,
/// emails, URLs, or hyphens).
pub fn is_data_like(field: &str) -> (r: bool)
    ensures
        r == data_like_text(field@),
{
    let f = chars_of(field);
    is_data_like_chars(&f)
}

fn is_data_like_chars(f: &Vec<char>) -> (r: bool)
    ensures
        r == data_like_text(f@),
{
    assert(['h', 't', 't', 'p']@ == seq!['h', 't', 't', 'p']);
    is_numeric_chars(f) || has_char(f, '@') || contains(f, &['h', 't', 't', 'p']) || (has_char(
        f,
        '-',
    ) && !has_char(f, '_'))
}

/// A field that names a column: it holds `_` or a space, or only
/// lower-case letters.
pub open spec fn header_name_text(f: Seq<char>) -> bool {
    ||| f.contains('_')
    ||| f.contains(' ')
    ||| forall|i: int| 0 <= i < f.len() ==> alphabetic(#[trigger] f[i]) && !uppercase(f[i])
}

/// The trimmed fields of the CSV line `line`, if it parses.
pub open spec fn trimmed_fields(line: Seq<char>) -> Option<Seq<Seq<char>>> {
    match csv_fields(line) {
        Some(fs) => Some(fs.map_values(|f: Seq<char>| trim_seq(f))),
        None => None,
    }
}

/// Whether `line` parses with a data-like field.
pub open spec fn row_has_data(line: Seq<char>) -> bool {
    match trimmed_fields(line) {
        Some(fs) => exists|j: int| 0 <= j < fs.len() && data_like_text(fs[j]),
        None => false,
    }
}

/// Whether some sampled data row (rows 1 to 5) parses with a data-like
/// field.
pub open spec fn sample_has_data(lines: Seq<Seq<char>>) -> bool {
    exists|i: int| 1 <= i < lines.len() && i <= 5 && #[trigger] row_has_data(lines[i])
}

/// Whether the first of `lines` is a header row, judged from it and up to
/// five rows after it.
pub open spec fn header_row(lines: Seq<Seq<char>>) -> bool {
    if lines.len() < 2 {
        false
    } else {
        match trimmed_fields(lines[0]) {
            None => false,
            Some(first) => {
                if exists|j: int| 0 <= j < first.len() && numeric_text(first[j]) {
                    false
                } else if exists|j: int| 0 <= j < first.len() && first[j].len() == 0 {
                    false
                } else if sample_has_data(lines) {
                    true
                } else {
                    exists|j: int| 0 <= j < first.len() && header_name_text(first[j])
                }
            },
        }
    }
}

/// A first row that parses, with no empty and no numeric field, is a
/// header when one of its fields holds a space or an underscore (as in
/// `First Name` or `last_name`), whatever rows follow it; a first row with
/// an empty or a numeric field never is.
pub proof fn lemma_header_names(lines: Seq<Seq<char>>)
    requires
        lines.len() >= 2,
    ensures
        trimmed_fields(lines[0]) matches Some(first) && (forall|j: int|
            0 <= j < first.len() ==> !numeric_text(#[trigger] first[j]) && first[j].len() > 0) && (exists|
            j: int,
        |
            0 <= j < first.len() && (#[trigger] first[j].contains(' ') || first[j].contains('_')))
            ==> header_row(lines),
        trimmed_fields(lines[0]) matches Some(first) && (exists|j: int|
            0 <= j < first.len() && (numeric_text(#[trigger] first[j]) || first[j].len() == 0))
            ==> !header_row(lines),
{
    if let Some(first) = trimmed_fields(lines[0]) {
        if exists|j: int| 0 <= j < first.len() && (#[trigger] first[j].contains(' ') || first[j].contains('_')) {
            let j = choose|j: int| 0 <= j < first.len() && (#[trigger] first[j].contains(' ') || first[j].contains('_'));
            let f = first[j];
            assert(f.contains(' ') || f.contains('_'));
            assert(header_name_text(f));
        }
    }
}

fn trimmed_fields_exec(line: &str) -> (r: Option<Vec<Vec<char>>>)
    ensures
        match r {
            Some(fs) => (trimmed_fields(line@) matches Some(t) && t.len() == fs.len() && forall|j: int|
                0 <= j < fs.len() ==> (#[trigger] fs@[j])@ == t[j]),
            None => trimmed_fields(line@) is None,
        },
{
    match parse_csv_line(line) {
        None => None,
        Some(fields) => {
            let mut out: Vec<Vec<char>> = Vec::new();
            let mut j: usize = 0;
            while j < fields.len()
                invariant
                    j <= fields.len(),
                    out.len() == j,
                    forall|k: int| 0 <= k < j ==> (#[trigger] out@[k])@ == trim_seq(fields@[k]@),
                decreases fields.len() - j,
            {
                let f = chars_of(fields[j].as_str());
                out.push(trim(&f));
                j = j + 1;
            }
            Some(out)
        },
    }
}

fn header_name_chars(f: &Vec<char>) -> (r: bool)
    ensures
        r == header_name_text(f@),
{
    if has_char(f, '_') || has_char(f, ' ') {
        return true;
    }
    let mut i: usize = 0;
    while i < f.len()
        invariant
            i <= f.len(),
            !f@.contains('_'),
            !f@.contains(' '),
            forall|k: int| 0 <= k < i ==> alphabetic(#[trigger] f@[k]) && !uppercase(f@[k]),
        decreases f.len() - i,
    {
        if !(is_alphabetic(f[i]) && !is_uppercase(f[i])) {
            assert(!(alphabetic(f@[i as int]) && !uppercase(f@[i as int])));
            return false;
        }
        i = i + 1;
    }
    true
}

/// Detects a header row in CSV data by analyzing the first row and up to
/// five data rows after it.
#[verifier::loop_isolation(false)]
pub fn detect_header_row(lines: &[&str]) -> (r: bool)
    ensures
        r == header_row(lines@.map_values(|l: &str| l@)),
{
    let ghost ls = lines@.map_values(|l: &str| l@);
    if lines.len() < 2 {
        return false;
    }
    assert(ls[0] == lines@[0]@);
    let first = match trimmed_fields_exec(lines[0]) {
        None => {
            return false;
        },
        Some(first) => first,
    };
    let ghost t = trimmed_fields(ls[0])->Some_0;
    assert(t.len() == first.len());
    let mut j: usize = 0;
    while j < first.len()
        invariant
            j <= first.len(),
            forall|k: int| 0 <= k < j ==> !numeric_text(#[trigger] t[k]),
        decreases first.len() - j,
    {
        if is_numeric_chars(&first[j]) {
            assert(numeric_text(t[j as int]));
            return false;
        }
        j = j + 1;
    }
    let mut j: usize = 0;
    while j < first.len()
        invariant
            j <= first.len(),
            forall|k: int| 0 <= k < j ==> (#[trigger] t[k]).len() > 0,
        decreases first.len() - j,
    {
        if first[j].len() == 0 {
            assert(t[j as int].len() == 0);
            return false;
        }
        j = j + 1;
    }
    let sample = if lines.len() - 1 < 5 {
        lines.len() - 1
    } else {
        5
    };
    let mut i: usize = 1;
    while i <= sample
        invariant
            1 <= i <= sample + 1,
            forall|k: int| 1 <= k < i ==> !#[trigger] row_has_data(ls[k]),
        decreases sample + 1 - i,
    {
        assert(ls[i as int] == lines@[i as int]@);
        match trimmed_fields_exec(lines[i]) {
            Some(fs) => {
                let ghost tf = trimmed_fields(ls[i as int])->Some_0;
                let mut m: usize = 0;
                while m < fs.len()
                    invariant
                        m <= fs.len(),
                        forall|k: int| 0 <= k < m ==> !data_like_text(#[trigger] tf[k]),
                    decreases fs.len() - m,
                {
                    if is_data_like_chars(&fs[m]) {
                        assert(data_like_text(tf[m as int]));
                        assert(row_has_data(ls[i as int]));
                        return true;
                    }
                    m = m + 1;
                }
                assert(!row_has_data(ls[i as int]));
            },
            None => {},
        }
        i = i + 1;
    }
    assert(!sample_has_data(ls)) by {
        if sample_has_data(ls) {
            let w = choose|k: int| 1 <= k < ls.len() && k <= 5 && #[trigger] row_has_data(ls[k]);
            assert(w < i);
        }
    }
    let mut j: usize = 0;
    while j < first.len()
        invariant
            j <= first.len(),
            forall|k: int| 0 <= k < j ==> !header_name_text(#[trigger] t[k]),
        decreases first.len() - j,
    {
        if header_name_chars(&first[j]) {
            assert(header_name_text(t[j as int]));
            return true;
        }
        j = j + 1;
    }
    false
}

/// Data rows sampled after the first row to decide whether it is a header.
pub const HEADER_SAMPLE_ROWS: usize = 5;

/// The first `k` row lines of `q` (blank lines and, before the first row,
/// `#` lines skipped), and what is left after the last one taken.
pub open spec fn take_rows(q: Seq<(nat, Seq<char>)>, started: bool, k: nat) -> (
    Seq<(nat, Seq<char>)>,
    Seq<(nat, Seq<char>)>,
)
    decreases k,
{
    if k == 0 {
        (Seq::empty(), q)
    } else {
        match row_index(texts(q), 0, started) {
            None => (Seq::empty(), Seq::empty()),
            Some(i) => {
                let (t, rest) = take_rows(q.skip(i + 1), true, (k - 1) as nat);
                (seq![q[i]] + t, rest)
            },
        }
    }
}

/// The texts of numbered lines.
pub open spec fn strs(q: Seq<(nat, Seq<char>)>) -> Seq<Seq<char>> {
    texts(q)
}

/// A CSV row record of `fields`, read from `t`, under the header `names`
/// and `keys` when there is one.
pub open spec fn row_record(rec: Record, t: Seq<char>, fields: Seq<Seq<char>>, header: Option<(Seq<Seq<char>>, Seq<Seq<char>>)>) -> bool {
    rec.source@ == t && match rec.content {
        Content::Row { fields: fs, header: h } => texts_of(fs@) == fields && match (h, header) {
            (Some(hh), Some((names, keys))) => texts_of(hh.names@) == names && texts_of(hh.keys@) == keys,
            (None, None) => true,
            _ => false,
        },
        _ => false,
    }
}

/// Records from CSV input. The first row and up to `HEADER_SAMPLE_ROWS`
/// data rows are held back to decide whether the first row is a header.
pub struct CsvRecords {
    pub source: LineSource,
    /// Held-back rows, the last first.
    pub buffered: VecDeque<Line>,
    pub header: Option<CsvHeader>,
    pub primed: bool,
    pub started: bool,
    pub parsed_any: bool,
}

/// What `prime` leaves: the held rows, the header's names and keys, whether
/// anything has parsed, the queue and whether a row has been read. A primed
/// reader is as it is.
pub open spec fn primed_view(c: CsvRecords) -> (
    Seq<(nat, Seq<char>)>,
    Option<(Seq<Seq<char>>, Seq<Seq<char>>)>,
    bool,
    Seq<(nat, Seq<char>)>,
    bool,
) {
    if c.primed {
        (c.held(), c.header_view(), c.parsed_any, c.source.queue(), c.started)
    } else {
        let (rows, rest) = take_rows(c.source.queue(), c.started, (HEADER_SAMPLE_ROWS + 1) as nat);
        let st = c.started || rows.len() > 0;
        if header_row(strs(rows)) && rows.len() > 0 {
            match csv_fields(rows[0].1) {
                Some(fs) => (
                    rows.drop_first(),
                    Some(
                        (
                            fs.map_values(|f: Seq<char>| trim_seq(f)),
                            fs.map_values(|f: Seq<char>| crate::text::lowercase(trim_seq(f))),
                        ),
                    ),
                    true,
                    rest,
                    st,
                ),
                None => (rows.drop_first(), None, false, rest, st),
            }
        } else {
            (rows, None, false, rest, st)
        }
    }
}

/// The next row line of a primed reader with the rows `held`, the queue
/// `q` and the flag `started`: the first held row, else the next row line
/// of the queue; with what is held, queued and started after it.
pub open spec fn csv_next_line(held: Seq<(nat, Seq<char>)>, q: Seq<(nat, Seq<char>)>, started: bool) -> Option<
    ((nat, Seq<char>), Seq<(nat, Seq<char>)>, Seq<(nat, Seq<char>)>, bool),
> {
    if held.len() > 0 {
        Some((held[0], held.drop_first(), q, started))
    } else {
        match row_index(texts(q), 0, started) {
            None => None,
            Some(i) => Some((q[i], Seq::empty(), q.skip(i + 1), true)),
        }
    }
}

/// What `CsvRecords::next_line` does: primes the reader on first use, then
/// hands out the next row line, or `None` when none is left.
pub open spec fn csv_line_step(before: CsvRecords, after: CsvRecords, r: Option<Line>) -> bool {
    let (held, hv, pa, q, st) = primed_view(before);
    &&& after.source.wf()
    &&& after.primed
    &&& after.header_ok()
    &&& after.header_view() == hv
    &&& after.parsed_any == pa
    &&& match csv_next_line(held, q, st) {
        None => r is None && after.held().len() == 0 && after.source.queue().len() == 0,
        Some((line, held2, q2, st2)) => r matches Some(l) && line_view(l) == line && after.held()
            == held2 && after.source.queue() == q2 && after.started == st2,
    }
}

/// What `CsvRecords::next` does: it reads the next row line and hands out
/// its record under the header, if there is one, or the failure to read it
/// as CSV; `None` when no row is left. A record it hands out is
/// well-formed.
pub open spec fn csv_step(before: CsvRecords, after: CsvRecords, r: Option<Result<Record, RecordError>>) -> bool {
    let (held, hv, pa, q, st) = primed_view(before);
    &&& after.source.wf()
    &&& after.primed
    &&& after.header_ok()
    &&& after.header_view() == hv
    &&& match csv_next_line(held, q, st) {
        None => r is None && after.held().len() == 0 && after.source.queue().len() == 0,
        Some((line, held2, q2, st2)) => {
            &&& after.held() == held2
            &&& after.source.queue() == q2
            &&& after.started == st2
            &&& match csv_fields(line.1) {
                Some(fs) => (r matches Some(Ok(rec)) && row_record(rec, line.1, fs, hv) && after.parsed_any),
                None => (r matches Some(Err(e)) && parse_error(
                    e,
                    pa,
                    Format::Csv,
                    line.0,
                    seq!['n', 'o', 't', ' ', 'a', ' ', 'C', 'S', 'V', ' ', 'r', 'o', 'w'],
                ) && after.parsed_any == pa),
            }
        },
    }
    &&& r matches Some(Ok(rec)) ==> content_wf(rec.content)
}

impl CsvRecords {
    /// The held-back rows, in order.
    pub open spec fn held(&self) -> Seq<(nat, Seq<char>)> {
        lines_view(self.buffered@)
    }

    /// The header's names and keys, if there is one.
    pub open spec fn header_view(&self) -> Option<(Seq<Seq<char>>, Seq<Seq<char>>)> {
        match self.header {
            Some(h) => Some((texts_of(h.names@), texts_of(h.keys@))),
            None => None,
        }
    }

    /// A header's names and keys stand side by side.
    pub open spec fn header_ok(&self) -> bool {
        self.header matches Some(h) ==> h.names@.len() == h.keys@.len()
    }

    pub fn new(source: LineSource) -> (r: CsvRecords)
        ensures
            r.source == source,
            r.buffered@.len() == 0,
            r.header is None,
            !r.primed,
            !r.started,
            !r.parsed_any,
    {
        CsvRecords {
            source,
            buffered: VecDeque::new(),
            header: None,
            primed: false,
            started: false,
            parsed_any: false,
        }
    }

    /// The next row line; blank lines and leading `#` lines are skipped.
    pub fn next_row_line(&mut self) -> (r: Option<Line>)
        requires
            old(self).source.wf(),
        ensures
            final(self).source.wf(),
            final(self).buffered == old(self).buffered,
            final(self).header == old(self).header,
            final(self).primed == old(self).primed,
            final(self).parsed_any == old(self).parsed_any,
            ({
                let q = old(self).source.queue();
                match row_index(texts(q), 0, old(self).started) {
                    None => r is None && final(self).source.queue().len() == 0 && final(self).started
                        == old(self).started,
                    Some(i) => (r matches Some(l) && line_view(l) == q[i] && final(self).source.queue()
                        == q.skip(i + 1) && final(self).started),
                }
            }),
    {
        next_row_line(&mut self.source, &mut self.started)
    }

    /// Hold back the first row and up to `HEADER_SAMPLE_ROWS` more; when
    /// `detect_header_row` finds the first a header, it becomes the header
    /// and is not held.
    #[verifier::loop_isolation(false)]
    pub fn prime(&mut self)
        requires
            old(self).source.wf(),
            old(self).buffered@.len() == 0,
            !old(self).parsed_any,
        ensures
            final(self).source.wf(),
            final(self).primed,
            final(self).header_ok(),
            final(self).started == (old(self).started || take_rows(
                old(self).source.queue(),
                old(self).started,
                (HEADER_SAMPLE_ROWS + 1) as nat,
            ).0.len() > 0),
            ({
                let (rows, rest) = take_rows(
                    old(self).source.queue(),
                    old(self).started,
                    (HEADER_SAMPLE_ROWS + 1) as nat,
                );
                &&& final(self).source.queue() == rest
                &&& if header_row(strs(rows)) && rows.len() > 0 {
                    &&& final(self).held() == rows.drop_first()
                    &&& match csv_fields(rows[0].1) {
                        Some(fs) => final(self).header_view() == Some(
                            (
                                fs.map_values(|f: Seq<char>| trim_seq(f)),
                                fs.map_values(|f: Seq<char>| crate::text::lowercase(trim_seq(f))),
                            ),
                        ) && final(self).parsed_any,
                        None => final(self).header is None && !final(self).parsed_any,
                    }
                } else {
                    final(self).held() == rows && final(self).header is None && !final(self).parsed_any
                }
            }),
    {
        let ghost q0 = self.source.queue();
        let ghost st0 = self.started;
        let ghost want = take_rows(q0, st0, (HEADER_SAMPLE_ROWS + 1) as nat);
        self.primed = true;
        self.header = None;
        let mut rows: Vec<Line> = Vec::new();
        proof {
            assert(lines_view(rows@) + take_rows(q0, st0, (HEADER_SAMPLE_ROWS + 1) as nat).0 =~= want.0);
        }
        while rows.len() <= HEADER_SAMPLE_ROWS
            invariant
                self.source.wf(),
                self.started == (st0 || rows@.len() > 0),
                self.buffered@.len() == 0,
                self.header is None,
                !self.parsed_any,
                self.primed,
                rows@.len() <= HEADER_SAMPLE_ROWS + 1,
                lines_view(rows@) + take_rows(
                    self.source.queue(),
                    self.started,
                    (HEADER_SAMPLE_ROWS + 1 - rows@.len()) as nat,
                ).0 == want.0,
                take_rows(
                    self.source.queue(),
                    self.started,
                    (HEADER_SAMPLE_ROWS + 1 - rows@.len()) as nat,
                ).1 == want.1,
            decreases HEADER_SAMPLE_ROWS + 1 - rows.len(),
        {
            let ghost q = self.source.queue();
            let ghost m = (HEADER_SAMPLE_ROWS + 1 - rows@.len()) as nat;
            let ghost prev = rows@;
            match next_row_line(&mut self.source, &mut self.started) {
                Some(line) => {
                    rows.push(line);
                    proof {
                        assert(lines_view(rows@) =~= lines_view(prev).push(line_view(line)));
                    }
                },
                None => {
                    proof {
                        assert(self.source.queue() =~= Seq::<(nat, Seq<char>)>::empty());
                    }
                    break;
                },
            }
        }
        proof {
            assert(lines_view(rows@).len() == rows@.len());
            assert(lines_view(rows@) == want.0);
        }
        let ghost st_after = self.started;
        assert(st_after == (st0 || want.0.len() > 0));
        let mut sample: Vec<&str> = Vec::new();
        let mut i: usize = 0;
        while i < rows.len()
            invariant
                i <= rows.len(),
                sample@.len() == i,
                forall|k: int| 0 <= k < i ==> (#[trigger] sample@[k])@ == rows@[k].text@,
            decreases rows.len() - i,
        {
            sample.push(rows[i].text.as_str());
            i = i + 1;
        }
        let is_header = detect_header_row(sample.as_slice());
        proof {
            assert(sample@.map_values(|l: &str| l@) =~= strs(want.0));
        }
        let mut start: usize = 0;
        if is_header && rows.len() > 0 {
            match parse_csv_line(rows[0].text.as_str()) {
                Some(fields) => {
                    let h = CsvHeader::new(&fields);
                    proof {
                        assert(texts_of(h.names@) =~= fields_view(fields@).map_values(|f: Seq<char>| trim_seq(f)));
                        assert(texts_of(h.keys@) =~= fields_view(fields@).map_values(|f: Seq<char>| crate::text::lowercase(trim_seq(f))));
                    }
                    self.header = Some(h);
                    self.parsed_any = true;
                },
                None => {},
            }
            start = 1;
        }
        let mut k = start;
        let ghost hv = self.header_view();
        let ghost has_header = self.header is Some;
        let ghost pa = self.parsed_any;
        let ghost sq = self.source.queue();
        while k < rows.len()
            invariant
                self.source.wf(),
                self.source.queue() == sq,
                self.header_view() == hv,
                (self.header is Some) == has_header,
                self.parsed_any == pa,
                self.primed,
                self.started == st_after,
                start <= k <= rows.len(),
                self.buffered@ == rows@.subrange(start as int, k as int),
            decreases rows.len() - k,
        {
            let line = rows[k].copy();
            self.buffered.push_back(line);
            k = k + 1;
            assert(self.buffered@ =~= rows@.subrange(start as int, k as int));
        }
        proof {
            assert(self.buffered@ =~= rows@.skip(start as int));
            assert(lines_view(rows@.skip(start as int)) =~= lines_view(rows@).skip(start as int));
        }
    }

    /// The next row: a held-back row first, priming on first use.
    pub fn next_line(&mut self) -> (r: Option<Line>)
        requires
            old(self).source.wf(),
            old(self).header_ok(),
            !old(self).primed ==> old(self).buffered@.len() == 0 && !old(self).parsed_any,
        ensures
            csv_line_step(*old(self), *final(self), r),
    {
        if !self.primed {
            self.prime();
        }
        let ghost mid = *self;
        assert(primed_view(*old(self)) == (mid.held(), mid.header_view(), mid.parsed_any, mid.source.queue(), mid.started));
        if self.buffered.len() > 0 {
            let line = self.buffered.pop_front().unwrap();
            proof {
                let h = mid.buffered@;
                assert(h[0] == line);
                assert(self.buffered@ =~= h.drop_first());
                assert(lines_view(h) =~= seq![line_view(line)] + lines_view(h.drop_first()));
                assert(self.held() =~= mid.held().drop_first());
            }
            return Some(line);
        }
        proof {
            assert(mid.buffered@.len() == 0);
            assert(self.held().len() == 0);
        }
        let r = self.next_row_line();
        proof {
            assert(self.held() =~= Seq::<(nat, Seq<char>)>::empty());
        }
        r
    }

    /// The record of a row line, or the failure to read it as CSV.
    pub fn record(&mut self, line: Line) -> (r: Result<Record, RecordError>)
        requires
            old(self).header_ok(),
        ensures
            r matches Ok(rec) ==> content_wf(rec.content),
            final(self).started == old(self).started,
            final(self).source == old(self).source,
            final(self).buffered == old(self).buffered,
            final(self).header == old(self).header,
            final(self).primed == old(self).primed,
            match csv_fields(line.text@) {
                Some(fs) => (r matches Ok(rec) && row_record(rec, line.text@, fs, old(self).header_view())
                    && final(self).parsed_any),
                None => (r matches Err(e) && parse_error(
                    e,
                    old(self).parsed_any,
                    Format::Csv,
                    line.number as nat,
                    seq!['n', 'o', 't', ' ', 'a', ' ', 'C', 'S', 'V', ' ', 'r', 'o', 'w'],
                ) && final(self).parsed_any == old(self).parsed_any),
            },
    {
        match parse_csv_line(line.text.as_str()) {
            Some(fields) => {
                self.parsed_any = true;
                let header = match &self.header {
                    Some(h) => Some(h.copy()),
                    None => None,
                };
                let rec = Record::row(fields, header, line.text);
                proof {
                    if self.header is Some {
                        let h = self.header->Some_0;
                        assert(texts_of(rec.content->Row_header->Some_0.names@) =~= texts_of(h.names@));
                        assert(texts_of(rec.content->Row_header->Some_0.keys@) =~= texts_of(h.keys@));
                    }
                }
                Ok(rec)
            },
            None => {
                let reason = chars_string(&['n', 'o', 't', ' ', 'a', ' ', 'C', 'S', 'V', ' ', 'r', 'o', 'w']);
                proof {
                    assert(['n', 'o', 't', ' ', 'a', ' ', 'C', 'S', 'V', ' ', 'r', 'o', 'w']@ == seq!['n', 'o', 't', ' ', 'a', ' ', 'C', 'S', 'V', ' ', 'r', 'o', 'w']);
                }
                Err(RecordError::parse(self.parsed_any, Format::Csv, line.number, reason))
            },
        }
    }

    /// The next record.
    pub fn next(&mut self) -> (r: Option<Result<Record, RecordError>>)
        requires
            old(self).source.wf(),
            old(self).header_ok(),
            !old(self).primed ==> old(self).buffered@.len() == 0 && !old(self).parsed_any,
        ensures
            csv_step(*old(self), *final(self), r),
    {
        match self.next_line() {
            Some(line) => Some(self.record(line)),
            None => None,
        }
    }
}

} // verus!
