//! Records from lines, for text, logfmt and CSV input, and the failures a
//! record can meet.

use vstd::prelude::*;
use crate::csv_parser::{csv_fields, csv_step, detect_header_row, fields_view, header_row, parse_csv_line, CsvRecords};
use crate::detect::{detect, detected, format_name, Format};
use crate::documents::{doc_view, docs_view, document_parsed, documents_spec, parse_documents, read, read_outcome, split_documents, Document};
use crate::json_stream::{chunk_read, chunk_step, chunk_text, json_stream_read, joined_lines, line_texts, parse_json_chunk, queue_step, texts, JsonRecords, ParsedChunk};
use crate::lines::{blank_text, comment_text, line_view, lines_view, numbered, Line, LineSource};
use crate::parse::{lemma_logfmt_wf, logfmt_spec, parse_logfmt};
use crate::record::{chars_string, content_wf, texts_of, usize_text, decimal_text, CsvHeader, Content, Record};
use crate::text::{into_deque, lines_of, words_of};
use std::collections::VecDeque;
use crate::value::{wf_json, JsonValue};

verus! {

/// Why reading a record failed.
#[derive(Debug)]
pub enum RecordError {
    /// Input failed before anything parsed; nothing further is read.
    First { format: Format, line: usize, reason: String },
    /// A record failed after others parsed; it is skipped.
    Skipped { line: usize, reason: String },
}

impl RecordError {
    /// A parse failure, fatal unless something has already parsed.
    pub fn parse(parsed_any: bool, format: Format, line: usize, reason: String) -> (r: RecordError)
        ensures
            parse_error(r, parsed_any, format, line as nat, reason@),
    {
        if parsed_any {
            RecordError::Skipped { line, reason }
        } else {
            RecordError::First { format, line, reason }
        }
    }

    /// The message this failure reports.
    pub fn message(&self) -> (r: String)
        ensures
            r@ == error_message(*self),
    {
        match self {
            RecordError::First { format, line, reason } => {
                let mut s = chars_string(&['i', 'n', 'p', 'u', 't', ' ', 'i', 's', ' ', 'n', 'o', 't', ' ']);
                s.append(format.name());
                s.append(chars_string(&[':', ' ', 'l', 'i', 'n', 'e', ' ']).as_str());
                s.append(usize_text(*line).as_str());
                s.append(chars_string(&[':', ' ']).as_str());
                s.append(reason.as_str());
                proof {
                    assert(['i', 'n', 'p', 'u', 't', ' ', 'i', 's', ' ', 'n', 'o', 't', ' ']@ == seq![
                        'i',
                        'n',
                        'p',
                        'u',
                        't',
                        ' ',
                        'i',
                        's',
                        ' ',
                        'n',
                        'o',
                        't',
                        ' ',
                    ]);
                    assert([':', ' ', 'l', 'i', 'n', 'e', ' ']@ == seq![':', ' ', 'l', 'i', 'n', 'e', ' ']);
                    assert([':', ' ']@ == seq![':', ' ']);
                }
                s
            },
            RecordError::Skipped { line, reason } => {
                let mut s = chars_string(
                    &['f', 'a', 'i', 'l', 'e', 'd', ' ', 't', 'o', ' ', 'p', 'a', 'r', 's', 'e', ' ', 'l', 'i', 'n', 'e', ' '],
                );
                s.append(usize_text(*line).as_str());
                s.append(chars_string(&[':', ' ']).as_str());
                s.append(reason.as_str());
                proof {
                    assert(['f', 'a', 'i', 'l', 'e', 'd', ' ', 't', 'o', ' ', 'p', 'a', 'r', 's', 'e', ' ', 'l', 'i', 'n', 'e', ' ']@
                        == seq![
                        'f',
                        'a',
                        'i',
                        'l',
                        'e',
                        'd',
                        ' ',
                        't',
                        'o',
                        ' ',
                        'p',
                        'a',
                        'r',
                        's',
                        'e',
                        ' ',
                        'l',
                        'i',
                        'n',
                        'e',
                        ' ',
                    ]);
                    assert([':', ' ']@ == seq![':', ' ']);
                }
                s
            },
        }
    }
}

/// The failure `RecordError::parse` gives: skipped once something has
/// parsed, a first failure before.
pub open spec fn parse_error(e: RecordError, parsed_any: bool, format: Format, line: nat, reason: Seq<char>) -> bool {
    if parsed_any {
        e matches RecordError::Skipped { line: l, reason: t } && l == line && t@ == reason
    } else {
        e matches RecordError::First { format: f, line: l, reason: t } && f == format && l == line
            && t@ == reason
    }
}

/// The message of a failure: `input is not <format>: line <n>: <reason>`
/// for a first failure, `failed to parse line <n>: <reason>` for a skipped
/// one.
pub open spec fn error_message(e: RecordError) -> Seq<char> {
    match e {
        RecordError::First { format, line, reason } => seq![
            'i',
            'n',
            'p',
            'u',
            't',
            ' ',
            'i',
            's',
            ' ',
            'n',
            'o',
            't',
            ' ',
        ] + format_name(format) + seq![':', ' ', 'l', 'i', 'n', 'e', ' '] + decimal_text(line as nat)
            + seq![':', ' '] + reason@,
        RecordError::Skipped { line, reason } => seq![
            'f',
            'a',
            'i',
            'l',
            'e',
            'd',
            ' ',
            't',
            'o',
            ' ',
            'p',
            'a',
            'r',
            's',
            'e',
            ' ',
            'l',
            'i',
            'n',
            'e',
            ' ',
        ] + decimal_text(line as nat) + seq![':', ' '] + reason@,
    }
}

/// A record of the text line `t`: its source is the line and it holds the
/// line's words.
pub open spec fn text_record(rec: Record, t: Seq<char>) -> bool {
    rec.source@ == t && match rec.content {
        Content::Words(ws) => texts_of(ws@) == words_of(t),
        _ => false,
    }
}

/// A record of the value `v` read from the text `t`.
pub open spec fn value_record(rec: Record, t: Seq<char>, v: crate::value::JVal) -> bool {
    rec.source@ == t && match rec.content {
        Content::Value(x) => x@ == v,
        _ => false,
    }
}

/// A line that holds a row: not blank, and not a `#` line before the first
/// row.
pub open spec fn row_text(t: Seq<char>, started: bool) -> bool {
    !blank_text(t) && !(!started && comment_text(t))
}

/// Index of the first row line of `ts` at or after `from`.
pub open spec fn row_index(ts: Seq<Seq<char>>, from: int, started: bool) -> Option<int>
    decreases ts.len() - from,
{
    if from < 0 || from >= ts.len() {
        None
    } else if row_text(ts[from], started) {
        Some(from)
    } else {
        row_index(ts, from + 1, started)
    }
}

/// The next row line; blank lines and `#` lines before the first row are
/// skipped.
pub fn next_row_line(source: &mut LineSource, started: &mut bool) -> (r: Option<Line>)
    requires
        old(source).wf(),
    ensures
        final(source).wf(),
        ({
            let q = old(source).queue();
            match row_index(texts(q), 0, *old(started)) {
                None => r is None && final(source).queue().len() == 0 && *final(started) == *old(
                    started,
                ),
                Some(i) => (r matches Some(l) && line_view(l) == q[i] && final(source).queue()
                    == q.skip(i + 1) && *final(started)),
            }
        }),
{
    let ghost q = source.queue();
    let ghost ts = texts(q);
    let ghost st = *started;
    let ghost mut j: int = 0;
    proof {
        assert(q.skip(0) == q);
    }
    loop
        invariant
            source.wf(),
            0 <= j <= q.len(),
            source.queue() == q.skip(j),
            ts == texts(q),
            *started == st,
            st == *old(started),
            q == old(source).queue(),
            row_index(ts, 0, st) == row_index(ts, j, st),
        decreases q.len() - j,
    {
        let ghost before = source.queue();
        match source.next_line() {
            None => {
                proof {
                    assert(q.skip(j).len() == 0);
                    assert(j >= ts.len());
                }
                return None;
            },
            Some(line) => {
                proof {
                    assert(before[0] == q[j]);
                    assert(q.skip(j).drop_first() == q.skip(j + 1));
                    assert(ts[j] == line.text@);
                }
                if line.is_blank() || (!*started && line.is_comment()) {
                    proof {
                        j = j + 1;
                    }
                    continue;
                }
                *started = true;
                return Some(line);
            },
        }
    }
}

/// One record per non-blank line; leading `#` lines are records too.
pub struct TextRecords {
    pub source: LineSource,
    pub parsed_any: bool,
}

/// Index of the first non-blank line of `ts` at or after `from`.
pub open spec fn text_index(ts: Seq<Seq<char>>, from: int) -> Option<int>
    decreases ts.len() - from,
{
    if from < 0 || from >= ts.len() {
        None
    } else if !blank_text(ts[from]) {
        Some(from)
    } else {
        text_index(ts, from + 1)
    }
}

/// What `TextRecords::next` does: it hands out the next non-blank line as
/// a text record, or `None` at the end of input.
pub open spec fn text_step(before: TextRecords, after: TextRecords, r: Option<Result<Record, RecordError>>) -> bool {
    let q = before.source.queue();
    &&& after.source.wf()
    &&& match text_index(texts(q), 0) {
        None => r is None && after.source.queue().len() == 0,
        Some(i) => (r matches Some(Ok(rec)) && text_record(rec, q[i].1) && after.source.queue()
            == q.skip(i + 1) && after.parsed_any),
    }
}

impl TextRecords {
    pub fn new(source: LineSource) -> (r: TextRecords)
        ensures
            r.source == source,
            !r.parsed_any,
    {
        TextRecords { source, parsed_any: false }
    }

    /// The next record: the next non-blank line as text.
    pub fn next(&mut self) -> (r: Option<Result<Record, RecordError>>)
        requires
            old(self).source.wf(),
        ensures
            text_step(*old(self), *final(self), r),
    {
        let ghost q = self.source.queue();
        let ghost ts = texts(q);
        let ghost mut j: int = 0;
        proof {
            assert(q.skip(0) == q);
        }
        loop
            invariant
                self.source.wf(),
                0 <= j <= q.len(),
                self.source.queue() == q.skip(j),
                ts == texts(q),
                q == old(self).source.queue(),
                text_index(ts, 0) == text_index(ts, j),
            decreases q.len() - j,
        {
            let ghost before = self.source.queue();
            match self.source.next_line() {
                None => {
                    proof {
                        assert(q.skip(j).len() == 0);
                    }
                    return None;
                },
                Some(line) => {
                    proof {
                        assert(before[0] == q[j]);
                        assert(q.skip(j).drop_first() == q.skip(j + 1));
                        assert(ts[j] == line.text@);
                    }
                    if line.is_blank() {
                        proof {
                        j = j + 1;
                    }
                        continue;
                    }
                    self.parsed_any = true;
                    return Some(Ok(Record::text(line.text)));
                },
            }
        }
    }
}

/// One record per row line; blank lines and leading `#` lines are skipped.
pub struct LogfmtRecords {
    pub source: LineSource,
    pub parsed_any: bool,
    pub started: bool,
}

/// What `LogfmtRecords::next` does: it hands out the next row line as a
/// logfmt record, or the failure to read it as logfmt, or `None` at the end
/// of input.
pub open spec fn logfmt_step(before: LogfmtRecords, after: LogfmtRecords, r: Option<Result<Record, RecordError>>) -> bool {
    &&& after.source.wf()
    &&& ({
                let q = before.source.queue();
                match row_index(texts(q), 0, before.started) {
                    None => r is None,
                    Some(i) => after.source.queue() == q.skip(i + 1) && match logfmt_spec(
                        q[i].1,
                    ) {
                        Some(v) => (r matches Some(Ok(rec)) && value_record(rec, q[i].1, v)
                            && after.parsed_any),
                        None => (r matches Some(Err(e)) && parse_error(
                            e,
                            before.parsed_any,
                            Format::Logfmt,
                            q[i].0,
                            seq![
                                'e',
                                'x',
                                'p',
                                'e',
                                'c',
                                't',
                                'e',
                                'd',
                                ' ',
                                'k',
                                'e',
                                'y',
                                '=',
                                'v',
                                'a',
                                'l',
                                'u',
                                'e',
                                ' ',
                                'p',
                                'a',
                                'i',
                                'r',
                                's',
                            ],
                        )),
                    },
                }
            })
}

impl LogfmtRecords {
    pub fn new(source: LineSource) -> (r: LogfmtRecords)
        ensures
            r.source == source,
            !r.parsed_any,
            !r.started,
    {
        LogfmtRecords { source, parsed_any: false, started: false }
    }

    /// The next record: the next row line as logfmt, or the failure to read
    /// it as logfmt.
    pub fn next(&mut self) -> (r: Option<Result<Record, RecordError>>)
        requires
            old(self).source.wf(),
        ensures
            logfmt_step(*old(self), *final(self), r),
    {
        let line = match next_row_line(&mut self.source, &mut self.started) {
            Some(line) => line,
            None => {
                return None;
            },
        };
        match parse_logfmt(line.text.as_str()) {
            Some(value) => {
                self.parsed_any = true;
                Some(Ok(Record::value(value, line.text)))
            },
            None => {
                let reason = chars_string(
                    &['e', 'x', 'p', 'e', 'c', 't', 'e', 'd', ' ', 'k', 'e', 'y', '=', 'v', 'a', 'l', 'u', 'e', ' ', 'p', 'a', 'i', 'r', 's'],
                );
                proof {
                    assert(['e', 'x', 'p', 'e', 'c', 't', 'e', 'd', ' ', 'k', 'e', 'y', '=', 'v', 'a', 'l', 'u', 'e', ' ', 'p', 'a', 'i', 'r', 's']@
                        == seq![
                        'e',
                        'x',
                        'p',
                        'e',
                        'c',
                        't',
                        'e',
                        'd',
                        ' ',
                        'k',
                        'e',
                        'y',
                        '=',
                        'v',
                        'a',
                        'l',
                        'u',
                        'e',
                        ' ',
                        'p',
                        'a',
                        'i',
                        'r',
                        's',
                    ]);
                }
                Some(Err(RecordError::parse(self.parsed_any, Format::Logfmt, line.number, reason)))
            },
        }
    }
}

/// How the records of an input are read.
pub enum Reader {
    Json(JsonRecords),
    Logfmt(LogfmtRecords),
    Text(TextRecords),
    Csv(CsvRecords),
    /// A YAML or TOML input split into documents, which the next step
    /// parses. The source and its lines are kept so that the input
    /// can be read as text when a guessed format fails.
    Documents(LineSource, Vec<Line>, Vec<Document>),
    /// Records made from parsed documents and not yet handed out, in order.
    Parsed(VecDeque<Result<Record, RecordError>>),
}

/// What reading an input needs next.
pub enum Step {
    /// The next record, or the failure to read it.
    Item(Result<Record, RecordError>),
    /// Input was read and parsed: a JSON chunk, or the YAML or TOML
    /// documents; the next steps hand out its records.
    Read,
    /// Every record has been handed out.
    End,
}

/// The records of one input source.
///
/// A forced format skips detection. A guessed YAML or TOML input whose first
/// document fails to parse is read as text lines.
pub struct Records {
    pub format: Format,
    pub forced: bool,
    pub reader: Reader,
}

/// The numbered lines of `input`.
pub open spec fn input_lines(input: Seq<char>) -> Seq<(nat, Seq<char>)> {
    numbered(lines_of(input), 1)
}

/// The lines of `s` are at most its characters.
pub proof fn lemma_lines_of_len(s: Seq<char>)
    ensures
        lines_of(s).len() <= s.len(),
    decreases s.len(),
{
    if s.len() > 0 {
        crate::text::lemma_first_index_of(s, '\n');
        match crate::text::first_index_of(s, '\n') {
            Some(i) => {
                lemma_lines_of_len(s.skip(i + 1));
            },
            None => {},
        }
    }
}

/// What reading the parsed documents of `before` does: when the first
/// document failed and the format was guessed, the input is read as text;
/// otherwise the records are `read_outcome`'s.
pub open spec fn documents_given(before: Records, after: Records, parsed: Seq<Result<JsonValue, (usize, String)>>) -> bool {
    &&& after.wf()
    &&& after.forced == before.forced
    &&& before.reader matches Reader::Documents(_, lines, docs) && if !before.forced && parsed.len() > 0
        && parsed[0] is Err {
        &&& after.format == Format::Text
        &&& after.reader matches Reader::Text(t)
        &&& t.source.queue() == lines_view(lines@)
        &&& !t.parsed_any
    } else {
        &&& after.format == before.format
        &&& after.reader matches Reader::Parsed(out)
        &&& read_outcome(before.format, docs_view(docs@), parsed, out@)
    }
}

/// What reading the next JSON chunk does: the chunk's lines are taken from
/// the input, a JSON stream parser reads their text, and what it read is
/// queued.
pub open spec fn chunk_parsed(before: JsonRecords, after: JsonRecords) -> bool {
    exists|c: Vec<Line>, mid: JsonRecords, p: ParsedChunk|
        #![trigger queue_step(mid, after, c, p)]
        chunk_step(before, mid, Some(c)) && chunk_read(p) == json_stream_read(joined_lines(line_texts(c@)))
            && queue_step(mid, after, c, p)
}

/// What reading the documents does: each document is parsed as the
/// format's documents are, and the records are made of what was parsed.
pub open spec fn documents_parsed(before: Records, after: Records) -> bool {
    exists|ps: Seq<Result<JsonValue, (usize, String)>>|
        #![trigger documents_given(before, after, ps)]
        before.reader matches Reader::Documents(_, _, docs) && ps.len() == docs.len() && (forall|i: int|
            0 <= i < ps.len() ==> document_parsed(before.format, docs_view(docs@)[i], #[trigger] ps[i]))
            && documents_given(before, after, ps)
}

impl Records {
    /// The reader suits the format and is ready for its next step.
    pub open spec fn wf(self) -> bool {
        &&& match self.reader {
            Reader::Json(j) => j.wf() && self.format == Format::Json,
            Reader::Logfmt(l) => l.source.wf() && self.format == Format::Logfmt,
            Reader::Text(t) => t.source.wf() && self.format == Format::Text,
            Reader::Csv(c) => c.source.wf() && c.header_ok() && (!c.primed ==> c.buffered@.len() == 0
                && !c.parsed_any) && self.format == Format::Csv,
            Reader::Documents(src, lines, docs) => src.wf() && (self.format == Format::Yaml
                || self.format == Format::Toml) && docs_view(docs@) == documents_spec(
                self.format,
                lines_view(lines@),
            ) && src.queue().len() == 0,
            Reader::Parsed(items) => (self.format == Format::Yaml || self.format == Format::Toml)
                && forall|i: int|
                0 <= i < items@.len() ==> (#[trigger] items@[i] matches Ok(rec) ==> content_wf(rec.content)),
        }
    }

    /// Choose the format of `input`, or use `forced`, and start reading.
    pub fn open(input: &str, forced: Option<Format>) -> (r: Records)
        requires
            input@.len() < usize::MAX,
        ensures
            r.wf(),
            r.forced == forced is Some,
            r.format == match forced {
                Some(f) => f,
                None => detected(texts(input_lines(input@))),
            },
            match r.reader {
                Reader::Json(j) => j.source.queue() == input_lines(input@) && j.pending().len() == 0
                    && !j.started && !j.parsed_any,
                Reader::Logfmt(l) => l.source.queue() == input_lines(input@) && !l.started
                    && !l.parsed_any,
                Reader::Text(t) => t.source.queue() == input_lines(input@) && !t.parsed_any,
                Reader::Csv(c) => c.source.queue() == input_lines(input@) && c.buffered@.len() == 0
                    && c.header is None && !c.primed && !c.started && !c.parsed_any,
                Reader::Documents(_, lines, _) => lines_view(lines@) == input_lines(input@),
                Reader::Parsed(_) => false,
            },
    {
        let mut source = LineSource::new(input);
        let format = match forced {
            Some(f) => f,
            None => detect(&mut source),
        };
        let reader = match format {
            Format::Json => Reader::Json(JsonRecords::new(source)),
            Format::Logfmt => Reader::Logfmt(LogfmtRecords::new(source)),
            Format::Text => Reader::Text(TextRecords::new(source)),
            Format::Csv => Reader::Csv(CsvRecords::new(source)),
            _ => {
                let lines = source.read_to_end();
                proof {
                    lemma_lines_of_len(input@);
                    assert forall|i: int| 0 <= i < lines.len() implies (#[trigger] lines@[i]).number < usize::MAX by {
                        assert(lines_view(lines@)[i] == input_lines(input@)[i]);
                    }
                }
                let documents = split_documents(format, lines.as_slice());
                Reader::Documents(source, lines, documents)
            },
        };
        Records { format, forced: forced.is_some(), reader }
    }

    /// The format records are read as.
    pub fn format(&self) -> (r: Format)
        ensures
            r == self.format,
    {
        self.format
    }

    /// The next step of reading: the next record or failure, the reading
    /// and parsing of a JSON chunk or of the documents, or the end.
    pub fn step(&mut self) -> (r: Step)
        requires
            old(self).wf(),
        ensures
            final(self).wf(),
            final(self).forced == old(self).forced,
            r matches Step::Item(Ok(rec)) ==> content_wf(rec.content),
            !(old(self).reader is Documents) ==> final(self).format == old(self).format,
            match old(self).reader {
                Reader::Json(j) => final(self).reader matches Reader::Json(j2) && if j.pending().len() > 0 {
                    &&& r == Step::Item(j.pending()[0])
                    &&& j2.pending() == j.pending().drop_first()
                    &&& j2.source == j.source
                    &&& j2.started == j.started
                    &&& j2.parsed_any == j.parsed_any
                } else {
                    match r {
                        Step::End => chunk_step(j, j2, None),
                        Step::Read => chunk_parsed(j, j2),
                        _ => false,
                    }
                },
                Reader::Logfmt(l) => final(self).reader matches Reader::Logfmt(l2) && match r {
                    Step::Item(x) => crate::records::logfmt_step(l, l2, Some(x)),
                    Step::End => crate::records::logfmt_step(l, l2, None),
                    _ => false,
                },
                Reader::Text(t) => final(self).reader matches Reader::Text(t2) && match r {
                    Step::Item(x) => text_step(t, t2, Some(x)),
                    Step::End => text_step(t, t2, None),
                    _ => false,
                },
                Reader::Csv(c) => final(self).reader matches Reader::Csv(c2) && match r {
                    Step::Item(x) => csv_step(c, c2, Some(x)),
                    Step::End => csv_step(c, c2, None),
                    _ => false,
                },
                Reader::Documents(_, _, _) => r is Read && documents_parsed(*old(self), *final(self)),
                Reader::Parsed(items) => final(self).reader matches Reader::Parsed(rest) && if items@.len()
                    == 0 {
                    r is End && rest@.len() == 0
                } else {
                    r == Step::Item(items@[0]) && rest@ == items@.drop_first()
                },
            },
    {
        let parsed = match &self.reader {
            Reader::Documents(_, _, docs) => Some(parse_documents(self.format, docs.as_slice())),
            _ => None,
        };
        if let Some(parsed) = parsed {
            let ghost before = *self;
            let ghost ps = parsed@;
            proof {
                if let Reader::Documents(_, _, docs) = before.reader {
                    assert forall|i: int| 0 <= i < ps.len() implies document_parsed(
                        before.format,
                        docs_view(docs@)[i],
                        #[trigger] ps[i],
                    ) by {
                        assert(docs_view(docs@)[i] == doc_view(docs@[i]));
                    }
                    assert forall|k: int| 0 <= k < ps.len() implies (#[trigger] ps[k] matches Ok(v) ==> wf_json(v@)) by {
                        assert(docs_view(docs@)[k] == doc_view(docs@[k]));
                    }
                }
            }
            self.give_documents(parsed);
            assert(documents_given(before, *self, ps));
            assert(documents_parsed(before, *self));
            return Step::Read;
        }
        match &mut self.reader {
            Reader::Json(j) => {
                let ghost j0 = *j;
                match j.pop() {
                    Some(item) => Step::Item(item),
                    None => match j.next_chunk() {
                        Some(chunk) => {
                            assert(lines_view(chunk@).len() == chunk@.len());
                            assert(chunk@.len() > 0);
                            let ghost mid = *j;
                            let text = chunk_text(chunk.as_slice());
                            let parsed = parse_json_chunk(text.as_str());
                            let ghost c = chunk;
                            let ghost p = parsed;
                            j.queue(chunk, parsed);
                            assert(queue_step(mid, *j, c, p));
                            assert(chunk_read(p) == json_stream_read(joined_lines(line_texts(c@))));
                            assert(chunk_step(j0, mid, Some(c)));
                            assert(chunk_parsed(j0, *j));
                            Step::Read
                        },
                        None => Step::End,
                    },
                }
            },
            Reader::Logfmt(l) => {
                let ghost before = *l;
                match l.next() {
                    Some(item) => {
                        proof {
                            let q = before.source.queue();
                            if let Some(i) = row_index(texts(q), 0, before.started) {
                                lemma_logfmt_wf(q[i].1);
                            }
                        }
                        Step::Item(item)
                    },
                    None => Step::End,
                }
            },
            Reader::Text(t) => match t.next() {
                Some(item) => Step::Item(item),
                None => Step::End,
            },
            Reader::Csv(c) => match c.next() {
                Some(item) => Step::Item(item),
                None => Step::End,
            },
            Reader::Documents(_, _, _) => Step::End,
            Reader::Parsed(items) => {
                let ghost before = items@;
                match items.pop_front() {
                    None => Step::End,
                    Some(item) => {
                    proof {
                        assert forall|i: int| 0 <= i < items@.len() implies (#[trigger] items@[i] matches Ok(rec)
                            ==> content_wf(rec.content)) by {
                            assert(items@[i] == before[i + 1]);
                        }
                        assert(before[0] == item);
                    }
                    Step::Item(item)
                    },
                }
            },
        }
    }

    /// Make records of the parsed documents: `parsed[i]` is document `i`'s
    /// value, or the input line and reason of its failure. When the first
    /// document fails and the format was guessed, the input is read as text
    /// instead.
    fn give_documents(&mut self, parsed: Vec<Result<JsonValue, (usize, String)>>)
        requires
            old(self).wf(),
            old(self).reader matches Reader::Documents(_, _, docs) && parsed.len() == docs.len(),
            forall|k: int| 0 <= k < parsed.len() ==> (#[trigger] parsed@[k] matches Ok(v) ==> wf_json(v@)),
        ensures
            documents_given(*old(self), *final(self), parsed@),
    {
        let mut reader = Reader::Parsed(VecDeque::new());
        std::mem::swap(&mut reader, &mut self.reader);
        match reader {
            Reader::Documents(mut source, lines, documents) => {
                let ghost ps = parsed@;
                match read(self.format, documents.as_slice(), parsed, self.forced) {
                    Some(out) => {
                        proof {
                            assert forall|i: int| 0 <= i < out.len() implies (#[trigger] out@[i] matches Ok(rec)
                                ==> content_wf(rec.content)) by {
                                if ps.len() > 0 && ps[0] is Err {
                                    assert(crate::documents::document_item(self.format, docs_view(documents@)[0], ps[0], out@[0], false));
                                } else {
                                    assert(crate::documents::document_item(self.format, docs_view(documents@)[i], ps[i], out@[i], i > 0));
                                }
                            }
                        }
                        self.reader = Reader::Parsed(into_deque(out));
                    },
                    None => {
                        source.replay(lines);
                        proof {
                            assert(lines_view(lines@) + Seq::<(nat, Seq<char>)>::empty() =~= lines_view(lines@));
                        }
                        self.format = Format::Text;
                        self.reader = Reader::Text(TextRecords::new(source));
                    },
                }
            },
            other => {
                self.reader = other;
            },
        }
    }
}

} // verus!
