//! JSON read as a stream of top-level values, whatever the line layout.
//!
//! Lines are grouped into chunks that end where every value opened in them
//! has closed, so each chunk is parsed once.

use vstd::prelude::*;
use crate::detect::{byte_len_exceeds, Format};
use crate::format_detector::{byte_len, byte_prefix_exec, chars_within, lead_ws_exec, lemma_chars_within};
use crate::json_text::{compact, to_compact};
use crate::lines::{Line, LineSource, line_view, lines_view};
use crate::record::{chars_string, content_wf, decimal_text, usize_text, Content, Record};
use crate::records::{next_row_line, parse_error, row_index, RecordError};
use crate::text::{
    into_deque, chars_of, count_char, ends_with, ends_with_seq, lead_ws, slice_vec, string_of, trim, trim_seq,
};
use crate::serde_values::json_of;
use crate::value::{lemma_view_arr, wf_json, JVal, JsonValue};
use std::collections::VecDeque;

verus! {

/// Bracket depth and string state across the lines of a chunk.
pub struct Nesting {
    pub depth: usize,
    pub in_string: bool,
    pub escaped: bool,
    pub unbalanced: bool,
}

/// The state before any line is fed.
pub open spec fn fresh_nesting() -> Nesting {
    Nesting { depth: 0, in_string: false, escaped: false, unbalanced: false }
}

/// The state after one more character. Inside a string only `\` and `"`
/// matter; outside, `"` opens a string and brackets change the depth. A
/// closing bracket with nothing open, or a depth past `usize::MAX`, marks
/// the chunk unbalanced.
pub open spec fn nesting_step(n: Nesting, c: char) -> Nesting {
    if n.in_string {
        if n.escaped {
            Nesting { depth: n.depth, in_string: true, escaped: false, unbalanced: n.unbalanced }
        } else if c == '\\' {
            Nesting { depth: n.depth, in_string: true, escaped: true, unbalanced: n.unbalanced }
        } else if c == '"' {
            Nesting { depth: n.depth, in_string: false, escaped: false, unbalanced: n.unbalanced }
        } else {
            n
        }
    } else if c == '"' {
        Nesting { depth: n.depth, in_string: true, escaped: n.escaped, unbalanced: n.unbalanced }
    } else if c == '{' || c == '[' {
        if n.depth < usize::MAX {
            Nesting {
                depth: (n.depth + 1) as usize,
                in_string: false,
                escaped: n.escaped,
                unbalanced: n.unbalanced,
            }
        } else {
            Nesting { depth: n.depth, in_string: false, escaped: n.escaped, unbalanced: true }
        }
    } else if c == '}' || c == ']' {
        if n.depth > 0 {
            Nesting {
                depth: (n.depth - 1) as usize,
                in_string: false,
                escaped: n.escaped,
                unbalanced: n.unbalanced,
            }
        } else {
            Nesting { depth: n.depth, in_string: false, escaped: n.escaped, unbalanced: true }
        }
    } else {
        n
    }
}

/// The state after feeding every character of `t`, in order.
pub open spec fn fed(n: Nesting, t: Seq<char>) -> Nesting
    decreases t.len(),
{
    if t.len() == 0 {
        n
    } else {
        nesting_step(fed(n, t.drop_last()), t.last())
    }
}

/// A chunk ends at a line end with nothing left open. A string still open
/// there can never close, since JSON strings hold no raw newline.
pub open spec fn complete(n: Nesting) -> bool {
    n.depth == 0 || n.in_string || n.unbalanced
}

/// Lines in the chunk that starts with `ts[0]`, given the state `n` after
/// its first `k` lines.
pub open spec fn chunk_lines_from(ts: Seq<Seq<char>>, k: int, n: Nesting) -> int
    decreases ts.len() - k,
{
    if complete(n) || k >= ts.len() || k < 1 {
        k
    } else {
        chunk_lines_from(ts, k + 1, fed(n, ts[k]))
    }
}

/// Lines in the chunk that starts with `ts[0]`: up to the first line end
/// where the chunk is complete, or every line.
pub open spec fn chunk_lines(ts: Seq<Seq<char>>) -> int {
    chunk_lines_from(ts, 1, fed(fresh_nesting(), ts[0]))
}

pub proof fn lemma_chunk_lines_from(ts: Seq<Seq<char>>, k: int, n: Nesting)
    requires
        1 <= k <= ts.len(),
    ensures
        k <= chunk_lines_from(ts, k, n) <= ts.len(),
    decreases ts.len() - k,
{
    if !(complete(n) || k >= ts.len()) {
        lemma_chunk_lines_from(ts, k + 1, fed(n, ts[k]));
    }
}

/// A chunk holds at least its first line and at most every line.
pub proof fn lemma_chunk_lines(ts: Seq<Seq<char>>)
    requires
        ts.len() > 0,
    ensures
        1 <= chunk_lines(ts) <= ts.len(),
{
    lemma_chunk_lines_from(ts, 1, fed(fresh_nesting(), ts[0]));
}

/// The texts of numbered lines.
pub open spec fn texts(q: Seq<(nat, Seq<char>)>) -> Seq<Seq<char>> {
    q.map_values(|x: (nat, Seq<char>)| x.1)
}

impl Nesting {
    pub fn new() -> (r: Nesting)
        ensures
            r == fresh_nesting(),
    {
        Nesting { depth: 0, in_string: false, escaped: false, unbalanced: false }
    }

    /// Feed every character of `line`.
    pub fn feed(&mut self, line: &str)
        ensures
            *final(self) == fed(*old(self), line@),
    {
        let v = chars_of(line);
        let mut i: usize = 0;
        while i < v.len()
            invariant
                i <= v.len(),
                v@ == line@,
                *self == fed(*old(self), v@.take(i as int)),
            decreases v.len() - i,
        {
            let c = v[i];
            proof {
                assert(v@.take(i + 1).drop_last() == v@.take(i as int));
            }
            if self.in_string {
                if self.escaped {
                    self.escaped = false;
                } else if c == '\\' {
                    self.escaped = true;
                } else if c == '"' {
                    self.in_string = false;
                }
            } else if c == '"' {
                self.in_string = true;
            } else if c == '{' || c == '[' {
                if self.depth < usize::MAX {
                    self.depth = self.depth + 1;
                } else {
                    self.unbalanced = true;
                }
            } else if c == '}' || c == ']' {
                if self.depth > 0 {
                    self.depth = self.depth - 1;
                } else {
                    self.unbalanced = true;
                }
            }
            i = i + 1;
        }
        proof {
            assert(v@.take(v.len() as int) == v@);
        }
    }

    /// Whether a chunk may end here.
    pub fn chunk_complete(&self) -> (r: bool)
        ensures
            r == complete(*self),
    {
        self.depth == 0 || self.in_string || self.unbalanced
    }
}

/// The lines, starting with `first`, that hold the next complete value:
/// `first`, then lines from `source` until the chunk is complete or the
/// input ends.
pub fn read_chunk(first: Line, source: &mut LineSource) -> (chunk: Vec<Line>)
    requires
        old(source).wf(),
    ensures
        final(source).wf(),
        ({
            let q = old(source).queue();
            let k = chunk_lines(seq![first.text@] + texts(q));
            &&& 1 <= k <= q.len() + 1
            &&& lines_view(chunk@) == seq![line_view(first)] + q.take(k - 1)
            &&& final(source).queue() == q.skip(k - 1)
        }),
{
    let ghost q = source.queue();
    let ghost ts = seq![first.text@] + texts(q);
    proof {
        lemma_chunk_lines(ts);
        assert(ts[0] == first.text@);
        assert(q.skip(0) == q);
    }
    let mut nesting = Nesting::new();
    nesting.feed(first.text.as_str());
    let ghost lv = line_view(first);
    let mut chunk: Vec<Line> = Vec::new();
    chunk.push(first);
    proof {
        assert(lines_view(chunk@) == seq![lv]);
        assert(q.take(0) == Seq::<(nat, Seq<char>)>::empty());
        assert(seq![lv] + q.take(0) == seq![lv]);
    }
    while !nesting.chunk_complete()
        invariant_except_break
            1 <= chunk.len() <= q.len() + 1,
            source.wf(),
            lines_view(chunk@) == seq![lv] + q.take(chunk.len() - 1),
            source.queue() == q.skip(chunk.len() - 1),
            chunk_lines(ts) == chunk_lines_from(ts, chunk.len() as int, nesting),
            ts == seq![first.text@] + texts(q),
        ensures
            1 <= chunk.len() <= q.len() + 1,
            source.wf(),
            lines_view(chunk@) == seq![lv] + q.take(chunk.len() - 1),
            source.queue() == q.skip(chunk.len() - 1),
            chunk_lines(ts) == chunk.len(),
        decreases q.len() + 1 - chunk.len(),
    {
        let ghost j = chunk.len() as int;
        let ghost before = source.queue();
        match source.next_line() {
            None => {
                proof {
                    assert(q.skip(j - 1).len() == 0);
                    assert(j >= ts.len());
                }
                break;
            },
            Some(line) => {
                proof {
                    assert(before[0] == q[j - 1]);
                    assert(ts[j] == q[j - 1].1);
                    assert(line.text@ == ts[j]);
                    assert(q.skip(j - 1).drop_first() == q.skip(j));
                    assert(q.take(j) == q.take(j - 1).push(q[j - 1]));
                    assert(lines_view(chunk@.push(line)) == lines_view(chunk@).push(line_view(line)));
                }
                nesting.feed(line.text.as_str());
                chunk.push(line);
            },
        }
    }
    chunk
}

/// The text of a chunk: each line followed by a line feed.
pub open spec fn joined_lines(ts: Seq<Seq<char>>) -> Seq<char>
    decreases ts.len(),
{
    if ts.len() == 0 {
        Seq::empty()
    } else {
        joined_lines(ts.drop_last()) + ts.last() + seq!['\n']
    }
}

/// The texts of `lines`, in order.
pub open spec fn line_texts(lines: Seq<Line>) -> Seq<Seq<char>> {
    lines.map_values(|l: Line| l.text@)
}

/// The text of `chunk`, each line followed by a line feed.
pub fn chunk_text(chunk: &[Line]) -> (r: String)
    ensures
        r@ == joined_lines(line_texts(chunk@)),
{
    let mut text = String::new();
    let mut i: usize = 0;
    while i < chunk.len()
        invariant
            i <= chunk.len(),
            text@ == joined_lines(line_texts(chunk@.take(i as int))),
        decreases chunk.len() - i,
    {
        proof {
            let t = line_texts(chunk@.take(i + 1));
            assert(t.drop_last() == line_texts(chunk@.take(i as int)));
            assert(t.last() == chunk@[i as int].text@);
        }
        text.append(chunk[i].text.as_str());
        crate::text::push_char(&mut text, '\n');
        i = i + 1;
    }
    proof {
        assert(chunk@.take(chunk.len() as int) == chunk@);
    }
    text
}

/// The kind of one value of a JSON stream.
#[derive(Debug, Clone, Copy, PartialEq, Eq, Structural)]
pub enum JsonKind {
    Object,
    Array,
    Scalar,
    Invalid,
}

/// The kinds of the values that `serde_json`'s stream deserializer reads
/// from `text`, in order; an `Invalid` ends the list where a value fails.
pub uninterp spec fn json_stream_kinds(text: Seq<char>) -> Seq<JsonKind>;

/// Trusted: `serde_json::Deserializer::from_str(text).into_iter::<Value>()`,
/// each item mapped to its kind, stopping after the first error. What the
/// stream reads is serde_json's JSON grammar and is not restated; the list
/// is named `json_stream_kinds`.
#[verifier::external_body]
fn value_kinds(text: &str) -> (r: Vec<JsonKind>)
    ensures
        r@ == json_stream_kinds(text@),
{
    let mut kinds = Vec::new();
    for item in serde_json::Deserializer::from_str(text).into_iter::<serde_json::Value>() {
        match item {
            Ok(serde_json::Value::Object(_)) => kinds.push(JsonKind::Object),
            Ok(serde_json::Value::Array(_)) => kinds.push(JsonKind::Array),
            Ok(_) => kinds.push(JsonKind::Scalar),
            Err(_) => {
                kinds.push(JsonKind::Invalid);
                break;
            },
        }
    }
    kinds
}

/// The first value parses, and every later value is an object or array.
pub open spec fn opens_with(kinds: Seq<JsonKind>) -> bool {
    &&& kinds.len() > 0
    &&& kinds[0] != JsonKind::Invalid
    &&& forall|i: int| 1 <= i < kinds.len() ==> (#[trigger] kinds[i] == JsonKind::Object || kinds[i]
        == JsonKind::Array)
}

/// Whether a chunk of text opens JSON input.
pub open spec fn json_opens(text: Seq<char>) -> bool {
    opens_with(json_stream_kinds(text))
}

/// Whether `kinds` opens JSON input: the first value parses, and only
/// further objects or arrays follow it.
pub fn kinds_open_json(kinds: &[JsonKind]) -> (r: bool)
    ensures
        r == opens_with(kinds@),
{
    if kinds.len() == 0 || kinds[0] == JsonKind::Invalid {
        return false;
    }
    let mut i: usize = 1;
    while i < kinds.len()
        invariant
            1 <= i <= kinds.len(),
            forall|k: int| 1 <= k < i ==> (#[trigger] kinds@[k] == JsonKind::Object || kinds@[k]
                == JsonKind::Array),
        decreases kinds.len() - i,
    {
        if !(kinds[i] == JsonKind::Object || kinds[i] == JsonKind::Array) {
            return false;
        }
        i = i + 1;
    }
    true
}

/// Whether `chunk` opens JSON input: its first value parses, and only
/// whitespace or further `{…}`/`[…]` values follow it.
pub fn opens_json_input(chunk: &[Line]) -> (r: bool)
    ensures
        r == json_opens(joined_lines(line_texts(chunk@))),
{
    let text = chunk_text(chunk);
    let kinds = value_kinds(text.as_str());
    kinds_open_json(kinds.as_slice())
}

/// Index of the chunk line holding character `offset` of the chunk text:
/// the line feeds before it.
pub fn line_index(text: &[char], offset: usize) -> (r: usize)
    ensures
        r == count_char(text@.take(if offset <= text.len() { offset as int } else { text.len() as int }), '\n'),
{
    let end = if offset <= text.len() {
        offset
    } else {
        text.len()
    };
    let prefix = crate::text::slice_vec(text, 0, end);
    crate::text::count_of(&prefix, '\n')
}

/// One value a JSON stream parser read from a chunk's text, and the byte
/// offset in that text where the value ends.
#[derive(Debug)]
pub struct ChunkValue {
    pub value: JsonValue,
    pub end: usize,
}

/// How a JSON stream parser failed in a chunk's text: whether the text
/// ended inside a value, the line and column it names (each from 1, the
/// column in bytes), and its message.
#[derive(Debug)]
pub struct ChunkFailure {
    pub eof: bool,
    pub line: usize,
    pub column: usize,
    pub message: String,
}

/// What a JSON stream parser read from a chunk's text: its values in order,
/// and the failure that stopped it, if one did.
#[derive(Debug)]
pub struct ParsedChunk {
    pub values: Vec<ChunkValue>,
    pub failure: Option<ChunkFailure>,
}

/// What a JSON stream parser read, as plain values: each value with the
/// byte offset where it ends, and the failure as whether the text ended
/// inside a value, its line, its column and its message.
pub open spec fn chunk_read(p: ParsedChunk) -> (Seq<(JVal, nat)>, Option<(bool, nat, nat, Seq<char>)>) {
    (
        p.values@.map_values(|v: ChunkValue| (v.value@, v.end as nat)),
        match p.failure {
            Some(f) => Some((f.eof, f.line as nat, f.column as nat, f.message@)),
            None => None,
        },
    )
}

/// What `serde_json`'s stream deserializer reads from `text`, as
/// `chunk_read` gives it.
pub uninterp spec fn json_stream_read(text: Seq<char>) -> (Seq<(JVal, nat)>, Option<(bool, nat, nat, Seq<char>)>);

/// Read the values of a chunk's text with a JSON stream parser.
///
/// Trusted: `serde_json::Deserializer::from_str(text).into_iter::<Value>()`
/// read to its end or its first error; each value is converted one for
/// one with the byte offset the stream reports after it, and an error
/// becomes its `is_eof`, `line`, `column` and `Display` text. What is read
/// is serde_json's JSON grammar and is not restated: the result is named
/// `json_stream_read`. Converted values have as many keys as values.
#[verifier::external_body]
pub fn parse_json_chunk(text: &str) -> (r: ParsedChunk)
    ensures
        chunk_read(r) == json_stream_read(text@),
        forall|k: int| 0 <= k < r.values.len() ==> wf_json(#[trigger] r.values@[k].value@),
{
    let mut stream = serde_json::Deserializer::from_str(text).into_iter::<serde_json::Value>();
    let mut values = Vec::new();
    loop {
        match stream.next() {
            None => return ParsedChunk { values, failure: None },
            Some(Ok(v)) => values.push(ChunkValue { value: json_of(v), end: stream.byte_offset() }),
            Some(Err(e)) => {
                let failure = ChunkFailure { eof: e.is_eof(), line: e.line(), column: e.column(), message: e.to_string() };
                return ParsedChunk { values, failure: Some(failure) };
            },
        }
    }
}

/// The characters of `s` from byte `a` to byte `b` (`&s[a..b]`).
pub open spec fn byte_range(s: Seq<char>, a: nat, b: nat) -> Seq<char> {
    let i = chars_within(s, a);
    let j = chars_within(s, b);
    if i <= j {
        s.subrange(i as int, j as int)
    } else {
        Seq::empty()
    }
}

/// The records one value read from `text` gives, the value's text starting
/// at byte `start`: each item of an array with its compact text; another
/// value with its own text, trimmed.
pub open spec fn pairs_of(v: ChunkValue, text: Seq<char>, start: nat) -> Seq<(JsonValue, Seq<char>)> {
    match v.value {
        JsonValue::Array(items) => items@.map_values(|it: JsonValue| (it, compact(it@))),
        _ => seq![(v.value, trim_seq(byte_range(text, start, v.end as nat)))],
    }
}

/// Byte offset in the chunk text where the values `vals` end: the end of
/// the last, or 0.
pub open spec fn values_end(vals: Seq<ChunkValue>) -> nat {
    if vals.len() == 0 {
        0
    } else {
        vals.last().end as nat
    }
}

/// The values and sources of the records that the values `vals` read from
/// `text` give, in order; each value's text starts where the one before it
/// ended.
pub open spec fn value_pairs(vals: Seq<ChunkValue>, text: Seq<char>) -> Seq<(JsonValue, Seq<char>)>
    decreases vals.len(),
{
    if vals.len() == 0 {
        Seq::empty()
    } else {
        value_pairs(vals.drop_last(), text) + pairs_of(vals.last(), text, values_end(vals.drop_last()))
    }
}

/// `item` is the record of `pair`'s value, with `pair`'s text as its source.
pub open spec fn item_is(item: Result<Record, RecordError>, pair: (JsonValue, Seq<char>)) -> bool {
    item matches Ok(rec) && rec.source@ == pair.1 && rec.content == Content::Value(pair.0)
}

/// ` at line <line> column <column>`, as a JSON parser ends its messages.
pub open spec fn position_suffix(line: nat, column: nat) -> Seq<char> {
    seq![' ', 'a', 't', ' ', 'l', 'i', 'n', 'e', ' '] + decimal_text(line) + seq![
        ' ',
        'c',
        'o',
        'l',
        'u',
        'm',
        'n',
        ' ',
    ] + decimal_text(column)
}

/// The failure's message without the position the parser appended, which
/// counts within the chunk rather than the input.
pub open spec fn reason_text(f: ChunkFailure) -> Seq<char> {
    let sfx = position_suffix(f.line as nat, f.column as nat);
    if ends_with_seq(f.message@, sfx) {
        f.message@.take(f.message@.len() - sfx.len())
    } else {
        f.message@
    }
}

/// The line of the chunk `cv` where the value after byte `start` of `text`
/// begins, at most the last line.
pub open spec fn value_start_line(cv: Seq<(nat, Seq<char>)>, text: Seq<char>, start: nat) -> int {
    let from = chars_within(text, start);
    let at = count_char(text.take((from + lead_ws(text.skip(from as int))) as int), '\n');
    if at < cv.len() {
        at as int
    } else {
        cv.len() - 1
    }
}

/// The chunk line a failure names, within the chunk.
pub open spec fn failure_index(cv: Seq<(nat, Seq<char>)>, f: ChunkFailure) -> int {
    if f.line == 0 {
        0
    } else if f.line - 1 < cv.len() {
        f.line - 1
    } else {
        cv.len() - 1
    }
}

/// The input line reported for a failure in the chunk `cv`, and the index
/// of the first chunk line to read again. A failure at the end of the text
/// is reported at the line where the failed value starts, and the rest of
/// the chunk is consumed. A failure at the first token of a later line means
/// the failed value ended before that line, which is read again; otherwise
/// reading resumes after the failure's line.
pub open spec fn failure_place(cv: Seq<(nat, Seq<char>)>, text: Seq<char>, start: nat, f: ChunkFailure) -> (nat, int) {
    let vs = value_start_line(cv, text, start);
    if f.eof {
        (cv[vs].0, cv.len() as int)
    } else {
        let ei = failure_index(cv, f);
        let first_token_column = byte_len(cv[ei].1.take(lead_ws(cv[ei].1) as int)) + 1;
        if ei > vs && f.column <= first_token_column {
            (cv[vs].0, ei)
        } else {
            (cv[ei].0, ei + 1)
        }
    }
}

/// The characters of `v` from byte `a` to byte `b`.
fn byte_range_exec(v: &Vec<char>, a: usize, b: usize) -> (r: Vec<char>)
    ensures
        r@ == byte_range(v@, a as nat, b as nat),
{
    proof {
        lemma_chars_within(v@, a as nat);
        lemma_chars_within(v@, b as nat);
    }
    let i = byte_prefix_exec(v, a).len();
    let j = byte_prefix_exec(v, b).len();
    if i <= j {
        slice_vec(v, i, j)
    } else {
        Vec::new()
    }
}

/// The message of `f` without the position the parser appended.
fn reason_of(f: &ChunkFailure) -> (r: String)
    ensures
        r@ == reason_text(*f),
{
    let mut suffix = chars_string(&[' ', 'a', 't', ' ', 'l', 'i', 'n', 'e', ' ']);
    suffix.append(usize_text(f.line).as_str());
    suffix.append(chars_string(&[' ', 'c', 'o', 'l', 'u', 'm', 'n', ' ']).as_str());
    suffix.append(usize_text(f.column).as_str());
    proof {
        assert([' ', 'a', 't', ' ', 'l', 'i', 'n', 'e', ' ']@ == seq![' ', 'a', 't', ' ', 'l', 'i', 'n', 'e', ' ']);
        assert([' ', 'c', 'o', 'l', 'u', 'm', 'n', ' ']@ == seq![' ', 'c', 'o', 'l', 'u', 'm', 'n', ' ']);
        assert(suffix@ == position_suffix(f.line as nat, f.column as nat));
    }
    let m = chars_of(f.message.as_str());
    let sv = chars_of(suffix.as_str());
    if ends_with(&m, &sv) {
        string_of(&slice_vec(&m, 0, m.len() - sv.len()))
    } else {
        f.message.clone()
    }
}

/// Where a failure in `chunk` is reported and where reading resumes.
fn locate_failure(f: &ChunkFailure, chunk: &Vec<Line>, text: &Vec<char>, start: usize) -> (r: (usize, usize))
    requires
        chunk.len() > 0,
    ensures
        (r.0 as nat, r.1 as int) == failure_place(lines_view(chunk@), text@, start as nat, *f),
        r.1 <= chunk.len(),
{
    let ghost cv = lines_view(chunk@);
    proof {
        lemma_chars_within(text@, start as nat);
    }
    let from = byte_prefix_exec(text, start).len();
    let rest = slice_vec(text, from, text.len());
    assert(rest@ == text@.skip(from as int));
    let ws = lead_ws_exec(&rest);
    let at = line_index(text, from + ws);
    let vs = if at < chunk.len() {
        at
    } else {
        chunk.len() - 1
    };
    assert(vs as int == value_start_line(cv, text@, start as nat));
    assert(cv[vs as int] == (chunk@[vs as int].number as nat, chunk@[vs as int].text@));
    if f.eof {
        return (chunk[vs].number, chunk.len());
    }
    let ei = if f.line == 0 {
        0
    } else if f.line - 1 < chunk.len() {
        f.line - 1
    } else {
        chunk.len() - 1
    };
    assert(cv[ei as int] == (chunk@[ei as int].number as nat, chunk@[ei as int].text@));
    let lt = chars_of(chunk[ei].text.as_str());
    let lw = lead_ws_exec(&lt);
    let ws_prefix = slice_vec(&lt, 0, lw);
    assert(ws_prefix@ == lt@.take(lw as int));
    let at_first_token = f.column <= 1 || byte_len_exceeds(&ws_prefix, f.column - 2);
    if ei > vs && at_first_token {
        (chunk[vs].number, ei)
    } else {
        (chunk[ei].number, ei + 1)
    }
}

/// Records from JSON input: one per top-level value, one per item of a
/// top-level array.
///
/// Reading alternates with parsing: `next_chunk` gives the lines of the
/// next complete value, `parse_json_chunk` reads their text with serde_json's
/// stream parser, and `queue` turns what it read into records, which `pop`
/// hands out in order.
pub struct JsonRecords {
    pub source: LineSource,
    /// Records and failures queued and not yet handed out, in order.
    pub ready: VecDeque<Result<Record, RecordError>>,
    pub started: bool,
    pub parsed_any: bool,
}

/// What `JsonRecords::next_chunk` does: it hands out the lines of the next
/// chunk, or `None` at the end of input, and queues nothing.
pub open spec fn chunk_step(before: JsonRecords, after: JsonRecords, r: Option<Vec<Line>>) -> bool {
    let q = before.source.queue();
    &&& after.wf()
    &&& after.pending() == before.pending()
    &&& after.parsed_any == before.parsed_any
    &&& match row_index(texts(q), 0, before.started) {
        None => r is None && after.source.queue().len() == 0 && after.started == before.started,
        Some(i) => {
            let rest = q.skip(i + 1);
            let k = chunk_lines(seq![q[i].1] + texts(rest));
            &&& r matches Some(chunk)
            &&& lines_view(chunk@) == seq![q[i]] + rest.take(k - 1)
            &&& after.source.queue() == rest.skip(k - 1)
            &&& after.started
        },
    }
}

/// What `JsonRecords::queue` does with what a parser read from `chunk`: it
/// queues a record for each value, or for each item of an array value, in
/// order, then the failure, if any, and puts the chunk's lines from the
/// failure's resume point back before the rest of the input.
pub open spec fn queue_step(before: JsonRecords, after: JsonRecords, chunk: Vec<Line>, parsed: ParsedChunk) -> bool {
    let text = joined_lines(line_texts(chunk@));
    let pairs = value_pairs(parsed.values@, text);
    let n = before.pending().len();
    &&& after.wf()
    &&& after.started == before.started
    &&& after.parsed_any == (before.parsed_any || parsed.values.len() > 0)
    &&& after.pending().len() == n + pairs.len() + if parsed.failure is Some {
        1int
    } else {
        0int
    }
    &&& after.pending().take(n as int) == before.pending()
    &&& forall|k: int| 0 <= k < pairs.len() ==> item_is(#[trigger] after.pending()[n + k], pairs[k])
    &&& match parsed.failure {
        None => after.source.queue() == before.source.queue(),
        Some(f) => {
            let place = failure_place(lines_view(chunk@), text, values_end(parsed.values@), f);
            &&& after.pending().last() matches Err(e) && parse_error(
                e,
                after.parsed_any,
                Format::Json,
                place.0,
                reason_text(f),
            )
            &&& after.source.queue() == lines_view(chunk@).skip(place.1) + before.source.queue()
        },
    }
}

impl JsonRecords {
    /// The records and failures queued and not yet handed out, in order.
    pub open spec fn pending(self) -> Seq<Result<Record, RecordError>> {
        self.ready@
    }

    /// The source is well-formed and every queued record's value is.
    pub open spec fn wf(self) -> bool {
        &&& self.source.wf()
        &&& forall|i: int|
            0 <= i < self.pending().len() ==> (#[trigger] self.pending()[i] matches Ok(rec)
                ==> content_wf(rec.content))
    }

    pub fn new(source: LineSource) -> (r: JsonRecords)
        ensures
            r.source == source,
            r.pending().len() == 0,
            !r.started,
            !r.parsed_any,
    {
        JsonRecords { source, ready: VecDeque::new(), started: false, parsed_any: false }
    }

    /// The lines of the next chunk: the next line that is not blank and not
    /// a `#` line before the first chunk, and the lines after it until the
    /// chunk's values are complete.
    pub fn next_chunk(&mut self) -> (r: Option<Vec<Line>>)
        requires
            old(self).wf(),
        ensures
            chunk_step(*old(self), *final(self), r),
    {
        match next_row_line(&mut self.source, &mut self.started) {
            None => None,
            Some(line) => Some(read_chunk(line, &mut self.source)),
        }
    }

    /// Queue the records of what a JSON stream parser read from the text of
    /// `chunk`. After a failure, the chunk's lines from the failure's
    /// resume point are read again.
    pub fn queue(&mut self, chunk: Vec<Line>, parsed: ParsedChunk)
        requires
            old(self).wf(),
            chunk.len() > 0,
            forall|k: int| 0 <= k < parsed.values.len() ==> wf_json(#[trigger] parsed.values@[k].value@),
        ensures
            queue_step(*old(self), *final(self), chunk, parsed),
    {
        let text = chunk_text(chunk.as_slice());
        let tv = chars_of(text.as_str());
        let ghost n = self.ready@.len();
        let ghost all = parsed.values@;
        let ParsedChunk { values, failure } = parsed;
        let mut values = into_deque(values);
        let mut start: usize = 0;
        let mut k: usize = 0;
        let count = values.len();
        while k < count
            invariant
                k <= count,
                count == all.len(),
                values@ == all.skip(k as int),
                tv@ == joined_lines(line_texts(chunk@)),
                forall|j: int| 0 <= j < all.len() ==> wf_json(#[trigger] all[j].value@),
                start as nat == values_end(all.take(k as int)),
                self.source.wf(),
                self.source == old(self).source,
                self.started == old(self).started,
                self.parsed_any == (old(self).parsed_any || k > 0),
                n == old(self).pending().len(),
                self.ready@.len() == n + value_pairs(all.take(k as int), tv@).len(),
                self.ready@.take(n as int) == old(self).pending(),
                forall|i: int| 0 <= i < n ==> #[trigger] self.ready@[i] == old(self).pending()[i],
                forall|j: int|
                    0 <= j < value_pairs(all.take(k as int), tv@).len() ==> item_is(
                        #[trigger] self.ready@[n + j],
                        value_pairs(all.take(k as int), tv@)[j],
                    ),
                forall|i: int|
                    0 <= i < self.ready@.len() ==> (#[trigger] self.ready@[i] matches Ok(rec)
                        ==> content_wf(rec.content)),
            decreases count - k,
        {
            let ghost before = value_pairs(all.take(k as int), tv@);
            let ghost len0 = self.ready@.len();
            let ghost r0 = self.ready@;
            let cv = values.pop_front().unwrap();
            assert(cv == all[k as int]);
            assert(all.take(k + 1).drop_last() == all.take(k as int));
            assert(all.take(k + 1).last() == all[k as int]);
            let ghost here = pairs_of(cv, tv@, start as nat);
            assert(value_pairs(all.take(k + 1), tv@) == before + here);
            self.parsed_any = true;
            let end = cv.end;
            match cv.value {
                JsonValue::Array(items) => {
                    proof {
                        lemma_view_arr(&cv.value);
                        assert(here == items@.map_values(|it: JsonValue| (it, compact(it@))));
                        assert(wf_json(cv.value@));
                        assert forall|t: int| 0 <= t < items@.len() implies wf_json(#[trigger] items@[t]@) by {
                            assert(cv.value@->Arr_0[t] == items@[t]@);
                        }
                    }
                    let ghost all_items = items@;
                    let mut items = into_deque(items);
                    let mut j: usize = 0;
                    let m = items.len();
                    while j < m
                        invariant
                            j <= m,
                            m == all_items.len(),
                            items@ == all_items.skip(j as int),
                            here == all_items.map_values(|it: JsonValue| (it, compact(it@))),
                            forall|t: int| 0 <= t < m ==> wf_json(#[trigger] all_items[t]@),
                            self.source == old(self).source,
                            self.started == old(self).started,
                            self.parsed_any,
                            self.ready@.len() == len0 + j,
                            r0.len() == len0,
                            forall|i: int| 0 <= i < len0 ==> #[trigger] self.ready@[i] == r0[i],
                            forall|t: int| 0 <= t < j ==> item_is(#[trigger] self.ready@[len0 + t], here[t]),
                            forall|i: int|
                                0 <= i < self.ready@.len() ==> (#[trigger] self.ready@[i] matches Ok(rec)
                                    ==> content_wf(rec.content)),
                        decreases m - j,
                    {
                        let it = items.pop_front().unwrap();
                        assert(it == all_items[j as int]);
                        let src = to_compact(&it);
                        self.ready.push_back(Ok(Record::value(it, src)));
                        assert(items@ =~= all_items.skip(j + 1));
                        j = j + 1;
                    }
                },
                value => {
                    let src = trim(&byte_range_exec(&tv, start, end));
                    self.ready.push_back(Ok(Record::value(value, string_of(&src))));
                },
            }
            proof {
                let after = value_pairs(all.take(k + 1), tv@);
                assert(self.ready@.len() == len0 + here.len());
                assert forall|j: int| 0 <= j < after.len() implies item_is(#[trigger] self.ready@[n + j], after[j]) by {
                    if j < before.len() {
                        assert(self.ready@[n + j] == r0[n + j]);
                    } else {
                        assert(after[j] == here[j - before.len()]);
                        assert(n + j == len0 + (j - before.len()));
                    }
                }
                assert forall|i: int| 0 <= i < n implies #[trigger] self.ready@[i] == old(self).pending()[i] by {
                    assert(self.ready@[i] == r0[i]);
                }
                assert(self.ready@.take(n as int) =~= old(self).pending());
            }
            start = end;
            assert(values@ =~= all.skip(k + 1));
            k = k + 1;
        }
        proof {
            assert(all.take(count as int) =~= all);
        }
        let ghost pairs = value_pairs(all, tv@);
        let ghost cv = lines_view(chunk@);
        match failure {
            None => {
                assert(self.pending().take(n as int) =~= old(self).pending());
            },
            Some(f) => {
                let ghost r1 = self.ready@;
                let (line, resume) = locate_failure(&f, &chunk, &tv, start);
                let reason = reason_of(&f);
                self.ready.push_back(Err(RecordError::parse(self.parsed_any, Format::Json, line, reason)));
                let mut chunk = chunk;
                let tail = chunk.split_off(resume);
                assert(lines_view(tail@) =~= cv.skip(resume as int));
                self.source.replay(tail);
                proof {
                    assert forall|k: int| 0 <= k < pairs.len() implies item_is(#[trigger] self.pending()[n + k], pairs[k]) by {
                        assert(self.ready@[n + k] == r1[n + k]);
                    }
                    assert(self.pending().take(n as int) =~= old(self).pending()) by {
                        assert forall|i: int| 0 <= i < n implies self.pending()[i] == old(self).pending()[i] by {
                            assert(self.ready@[i] == r1[i]);
                        }
                    }
                    assert forall|i: int| 0 <= i < self.pending().len() implies (#[trigger] self.pending()[i] matches Ok(rec)
                        ==> content_wf(rec.content)) by {
                        if i < r1.len() {
                            assert(self.ready@[i] == r1[i]);
                        }
                    }
                }
            },
        }
    }

    /// The next queued record or failure, or `None` when none is queued.
    pub fn pop(&mut self) -> (r: Option<Result<Record, RecordError>>)
        requires
            old(self).wf(),
        ensures
            final(self).wf(),
            final(self).source == old(self).source,
            final(self).started == old(self).started,
            final(self).parsed_any == old(self).parsed_any,
            old(self).pending().len() == 0 ==> r is None && final(self).pending() == old(self).pending(),
            old(self).pending().len() > 0 ==> r == Some(old(self).pending()[0]) && final(self).pending()
                == old(self).pending().drop_first(),
    {
        let ghost before = self.ready@;
        match self.ready.pop_front() {
            None => None,
            Some(r) => {
            proof {
                assert forall|i: int| 0 <= i < self.pending().len() implies (#[trigger] self.pending()[i] matches Ok(rec)
                    ==> content_wf(rec.content)) by {
                    assert(self.pending()[i] == before[i + 1]);
                }
            }
            Some(r)
            },
        }
    }
}

} // verus!
