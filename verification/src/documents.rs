//! YAML and TOML, read to the end of input as whole documents.
//!
//! A YAML input is split into documents at `---` lines; a TOML input is one
//! document. Each document is parsed with serde_yaml_ng or toml (a value,
//! or a failure and where it failed), and `read` turns those outcomes into
//! records.

use vstd::prelude::*;
use crate::detect::{meaningful, Format};
use crate::format_detector::{byte_prefix, byte_prefix_exec, lead_ws_exec};
use crate::lines::{blank_text, comment_text, lines_view, Line};
use crate::record::{texts_of, Content, Record};
use crate::records::{parse_error, RecordError};
use crate::text::{
    chars_of, count_char, count_of, into_deque, is_whitespace, is_ws, lines_of, push_char, slice_vec,
    split_lines, string_of, trim, trim_seq,
};
use crate::serde_values::json_of;
use crate::value::{wf_json, JVal, JsonValue};

verus! {

/// A document's text and the input line its text starts on.
#[derive(Debug)]
pub struct Document {
    pub first_line: usize,
    pub text: String,
}

/// A document as its first line and its text.
pub open spec fn doc_view(d: Document) -> (nat, Seq<char>) {
    (d.first_line as nat, d.text@)
}

/// The views of `ds`, in order.
pub open spec fn docs_view(ds: Seq<Document>) -> Seq<(nat, Seq<char>)> {
    ds.map_values(|d: Document| doc_view(d))
}

/// `ts` joined with a line feed between each two.
pub open spec fn joined(ts: Seq<Seq<char>>) -> Seq<char>
    decreases ts.len(),
{
    if ts.len() == 0 {
        Seq::empty()
    } else if ts.len() == 1 {
        ts[0]
    } else {
        joined(ts.drop_last()) + seq!['\n'] + ts.last()
    }
}

/// The trimmed text after a `---` document marker that ends the line or is
/// followed by whitespace; `None` when `t` is no marker.
pub open spec fn marker_rest(t: Seq<char>) -> Option<Seq<char>> {
    if t.len() >= 3 && t[0] == '-' && t[1] == '-' && t[2] == '-' && (t.len() == 3 || is_ws(t[3])) {
        Some(trim_seq(t.skip(3)))
    } else {
        None
    }
}

/// Some line of `text` holds more than whitespace or a `#` comment.
pub open spec fn has_content_text(text: Seq<char>) -> bool {
    exists|i: int| 0 <= i < lines_of(text).len() && meaningful(#[trigger] lines_of(text)[i])
}

/// `docs` with the document `(first, text)` appended when it has content.
pub open spec fn keep(docs: Seq<(nat, Seq<char>)>, first: nat, text: Seq<char>) -> Seq<(nat, Seq<char>)> {
    if has_content_text(text) {
        docs.push((first, text))
    } else {
        docs
    }
}

/// After the first `k` of the lines `ls`: the documents closed so far, the
/// first line of the open document, and the open document's lines.
pub open spec fn split_state(ls: Seq<(nat, Seq<char>)>, k: int) -> (Seq<(nat, Seq<char>)>, nat, Seq<Seq<char>>)
    decreases k,
{
    if k <= 0 {
        (Seq::empty(), if ls.len() > 0 { ls[0].0 } else { 1nat }, Seq::empty())
    } else {
        let (docs, first, cur) = split_state(ls, k - 1);
        let line = ls[k - 1];
        match marker_rest(line.1) {
            None => (docs, first, cur.push(line.1)),
            Some(rest) => (
                keep(docs, first, joined(cur)),
                if rest.len() == 0 { (line.0 + 1) as nat } else { line.0 },
                if rest.len() == 0 { Seq::empty() } else { seq![rest] },
            ),
        }
    }
}

/// The YAML documents of the lines `ls`: split at `---` lines, a
/// document's text excluding its marker but keeping text after it on the
/// marker's line; documents without content are dropped.
pub open spec fn yaml_documents_spec(ls: Seq<(nat, Seq<char>)>) -> Seq<(nat, Seq<char>)> {
    let (docs, first, cur) = split_state(ls, ls.len() as int);
    keep(docs, first, joined(cur))
}

/// The whole of the lines `ls` as one document.
pub open spec fn whole_input_spec(ls: Seq<(nat, Seq<char>)>) -> (nat, Seq<char>) {
    (
        if ls.len() > 0 { ls[0].0 } else { 1nat },
        joined(ls.map_values(|l: (nat, Seq<char>)| l.1)),
    )
}

/// The documents of a YAML or TOML input: a TOML input is one document.
pub open spec fn documents_spec(format: Format, ls: Seq<(nat, Seq<char>)>) -> Seq<(nat, Seq<char>)> {
    if format == Format::Toml {
        seq![whole_input_spec(ls)]
    } else {
        yaml_documents_spec(ls)
    }
}

/// Keeping a document keeps every document with content.
proof fn lemma_keep(docs: Seq<(nat, Seq<char>)>, first: nat, text: Seq<char>)
    requires
        forall|i: int| 0 <= i < docs.len() ==> has_content_text(#[trigger] docs[i].1),
    ensures
        forall|i: int| 0 <= i < keep(docs, first, text).len() ==> has_content_text(
            #[trigger] keep(docs, first, text)[i].1,
        ),
{
    if has_content_text(text) {
        let k = docs.push((first, text));
        assert forall|i: int| 0 <= i < k.len() implies has_content_text(#[trigger] k[i].1) by {
            if i < docs.len() {
                assert(k[i] == docs[i]);
            }
        }
    }
}

proof fn lemma_split_state_content(ls: Seq<(nat, Seq<char>)>, k: int)
    ensures
        forall|i: int| 0 <= i < split_state(ls, k).0.len() ==> has_content_text(
            #[trigger] split_state(ls, k).0[i].1,
        ),
    decreases k,
{
    if k > 0 {
        lemma_split_state_content(ls, k - 1);
        let (docs, first, cur) = split_state(ls, k - 1);
        lemma_keep(docs, first, joined(cur));
    }
}

/// Documents holding only blank and `#` lines are dropped: every YAML
/// document of every input has a line with more than whitespace or a
/// comment.
pub proof fn lemma_documents_have_content(ls: Seq<(nat, Seq<char>)>)
    ensures
        forall|i: int| 0 <= i < yaml_documents_spec(ls).len() ==> has_content_text(
            #[trigger] yaml_documents_spec(ls)[i].1,
        ),
{
    lemma_split_state_content(ls, ls.len() as int);
    let (docs, first, cur) = split_state(ls, ls.len() as int);
    lemma_keep(docs, first, joined(cur));
}

/// `lines` joined with a line feed between each two.
pub fn join(lines: &[String]) -> (r: String)
    ensures
        r@ == joined(texts_of(lines@)),
{
    let mut text = String::new();
    let mut i: usize = 0;
    while i < lines.len()
        invariant
            i <= lines.len(),
            text@ == joined(texts_of(lines@.take(i as int))),
        decreases lines.len() - i,
    {
        let ghost before = texts_of(lines@.take(i as int));
        if i > 0 {
            push_char(&mut text, '\n');
        }
        text.append(lines[i].as_str());
        proof {
            let after = texts_of(lines@.take(i + 1));
            assert(after.drop_last() =~= before);
            assert(after.last() == lines@[i as int]@);
            if i == 0 {
                assert(after.len() == 1);
            }
        }
        i = i + 1;
    }
    proof {
        assert(lines@.take(lines.len() as int) =~= lines@);
    }
    text
}

/// The trimmed text after a `---` marker at the start of `v`.
fn marker_chars(v: &[char]) -> (r: Option<Vec<char>>)
    ensures
        match r {
            Some(rest) => marker_rest(v@) == Some(rest@),
            None => marker_rest(v@) is None,
        },
{
    if v.len() >= 3 && v[0] == '-' && v[1] == '-' && v[2] == '-' && (v.len() == 3 || is_whitespace(
        v[3],
    )) {
        let rest = slice_vec(v, 3, v.len());
        assert(rest@ == v@.skip(3));
        Some(trim(&rest))
    } else {
        None
    }
}

/// Text after a `---` document marker, trimmed, or `None` when `line` is
/// not one: the marker ends the line or whitespace follows it.
pub fn document_marker(line: &str) -> (r: Option<String>)
    ensures
        match r {
            Some(rest) => marker_rest(line@) == Some(rest@),
            None => marker_rest(line@) is None,
        },
{
    let v = chars_of(line);
    match marker_chars(&v) {
        Some(rest) => Some(string_of(&rest)),
        None => None,
    }
}

/// Whether `v` holds more than whitespace or a `#` comment.
fn meaningful_chars(v: &[char]) -> (r: bool)
    ensures
        r == meaningful(v@),
{
    if trim(v).len() == 0 {
        return false;
    }
    let k = lead_ws_exec(v);
    !(k < v.len() && v[k] == '#')
}

/// Whether some line of the document holds more than whitespace or a `#`
/// comment.
pub fn has_content(document: &Document) -> (r: bool)
    ensures
        r == has_content_text(document.text@),
{
    let v = chars_of(document.text.as_str());
    let ls = split_lines(&v);
    let mut i: usize = 0;
    while i < ls.len()
        invariant
            i <= ls.len(),
            ls@.len() == lines_of(v@).len(),
            v@ == document.text@,
            forall|j: int| 0 <= j < ls@.len() ==> (#[trigger] ls@[j])@ == lines_of(v@)[j],
            forall|j: int| 0 <= j < i ==> !meaningful(#[trigger] lines_of(v@)[j]),
        decreases ls.len() - i,
    {
        if meaningful_chars(ls[i].as_slice()) {
            assert(meaningful(lines_of(v@)[i as int]));
            return true;
        }
        i = i + 1;
    }
    false
}

/// A copy of the text of each line.
fn texts_of_lines(lines: &[Line]) -> (r: Vec<String>)
    ensures
        texts_of(r@) == lines_view(lines@).map_values(|l: (nat, Seq<char>)| l.1),
{
    let mut r: Vec<String> = Vec::new();
    let mut i: usize = 0;
    while i < lines.len()
        invariant
            i <= lines.len(),
            r@.len() == i,
            forall|j: int| 0 <= j < i ==> (#[trigger] r@[j])@ == lines@[j].text@,
        decreases lines.len() - i,
    {
        r.push(lines[i].text.clone());
        i = i + 1;
    }
    proof {
        let a = texts_of(r@);
        let b = lines_view(lines@).map_values(|l: (nat, Seq<char>)| l.1);
        assert(a.len() == b.len());
        assert forall|j: int| 0 <= j < a.len() implies a[j] == b[j] by {
            assert(a[j] == r@[j]@);
            assert(lines_view(lines@)[j] == (lines@[j].number as nat, lines@[j].text@));
        }
        assert(a =~= b);
    }
    r
}

/// The whole input as one document.
pub fn whole_input(lines: &[Line]) -> (r: Document)
    ensures
        doc_view(r) == whole_input_spec(lines_view(lines@)),
{
    let first_line = if lines.len() > 0 {
        lines[0].number
    } else {
        1
    };
    let texts = texts_of_lines(lines);
    Document { first_line, text: join(&texts) }
}

/// Split on `---` lines; a document's text excludes its `---` line but keeps
/// what follows the marker on that line. Documents holding only blank and
/// `#` lines are dropped.
pub fn yaml_documents(lines: &[Line]) -> (r: Vec<Document>)
    requires
        forall|i: int| 0 <= i < lines.len() ==> (#[trigger] lines[i]).number < usize::MAX,
    ensures
        docs_view(r@) == yaml_documents_spec(lines_view(lines@)),
{
    let ghost ls = lines_view(lines@);
    let mut documents: Vec<Document> = Vec::new();
    let mut first_line: usize = if lines.len() > 0 {
        lines[0].number
    } else {
        1
    };
    let mut current: Vec<String> = Vec::new();
    let mut i: usize = 0;
    while i < lines.len()
        invariant
            i <= lines.len(),
            ls == lines_view(lines@),
            forall|j: int| 0 <= j < lines.len() ==> (#[trigger] lines[j]).number < usize::MAX,
            split_state(ls, i as int) == (docs_view(documents@), first_line as nat, texts_of(current@)),
        decreases lines.len() - i,
    {
        let ghost docs0 = docs_view(documents@);
        let v = chars_of(lines[i].text.as_str());
        assert(ls[i as int] == (lines[i as int].number as nat, lines[i as int].text@));
        match marker_chars(&v) {
            None => {
                current.push(lines[i].text.clone());
                proof {
                    assert(texts_of(current@) =~= texts_of(current@.drop_last()).push(lines[i as int].text@));
                }
            },
            Some(rest) => {
                let text = join(&current);
                let doc = Document { first_line, text };
                if has_content(&doc) {
                    documents.push(doc);
                    proof {
                        assert(docs_view(documents@) =~= docs0.push(doc_view(doc)));
                    }
                }
                if rest.len() == 0 {
                    first_line = lines[i].number + 1;
                    current = Vec::new();
                    proof {
                        assert(texts_of(current@) =~= Seq::<Seq<char>>::empty());
                    }
                } else {
                    first_line = lines[i].number;
                    current = Vec::new();
                    current.push(string_of(&rest));
                    proof {
                        assert(texts_of(current@) =~= seq![rest@]);
                    }
                }
            },
        }
        i = i + 1;
    }
    let text = join(&current);
    let doc = Document { first_line, text };
    let ghost docs0 = docs_view(documents@);
    if has_content(&doc) {
        documents.push(doc);
        proof {
            assert(docs_view(documents@) =~= docs0.push(doc_view(doc)));
        }
    }
    documents
}

/// The documents of a YAML or TOML input: a TOML input is one document.
pub fn split_documents(format: Format, lines: &[Line]) -> (r: Vec<Document>)
    requires
        forall|i: int| 0 <= i < lines.len() ==> (#[trigger] lines[i]).number < usize::MAX,
    ensures
        docs_view(r@) == documents_spec(format, lines_view(lines@)),
{
    match format {
        Format::Toml => {
            let d = whole_input(lines);
            let mut r: Vec<Document> = Vec::new();
            r.push(d);
            proof {
                assert(docs_view(r@) =~= seq![doc_view(d)]);
            }
            r
        },
        _ => yaml_documents(lines),
    }
}

/// Where a parser placed a failure in a document: a YAML parser gives a
/// line of the document, counted from 1; a TOML parser gives the byte at
/// which the failing span starts.
#[derive(Debug, Clone, Copy, PartialEq, Eq)]
pub enum FailurePlace {
    Line(usize),
    Byte(usize),
    Unknown,
}

/// Lines of `text` before the failure at `at`.
pub open spec fn place_offset(text: Seq<char>, at: FailurePlace) -> nat {
    match at {
        FailurePlace::Line(l) => if l >= 1 { (l - 1) as nat } else { 0 },
        FailurePlace::Byte(b) => count_char(byte_prefix(text, b as nat), '\n'),
        FailurePlace::Unknown => 0,
    }
}

/// The input line of a failure at `at` in a document that starts on line
/// `first` with text `text`: its first line plus the lines before the
/// failure, saturating at `usize::MAX`.
pub open spec fn failure_line_at(first: nat, text: Seq<char>, at: FailurePlace) -> nat {
    if first + place_offset(text, at) <= usize::MAX {
        first + place_offset(text, at)
    } else {
        usize::MAX as nat
    }
}

/// The input line of a failure at `at` in `document`: its first line plus
/// the lines before the failure, saturating at `usize::MAX`.
pub fn failure_line(document: &Document, at: FailurePlace) -> (r: usize)
    ensures
        r == failure_line_at(document.first_line as nat, document.text@, at),
{
    let offset: usize = match at {
        FailurePlace::Line(l) => if l >= 1 {
            l - 1
        } else {
            0
        },
        FailurePlace::Byte(b) => {
            let v = chars_of(document.text.as_str());
            let prefix = byte_prefix_exec(&v, b);
            count_of(prefix.as_slice(), '\n')
        },
        FailurePlace::Unknown => 0,
    };
    document.first_line.saturating_add(offset)
}

/// A parse outcome as plain values.
pub open spec fn placed_result(r: Result<JsonValue, (FailurePlace, String)>) -> Result<JVal, (FailurePlace, Seq<char>)> {
    match r {
        Ok(v) => Ok(v@),
        Err((at, m)) => Err((at, m@)),
    }
}

/// What `serde_yaml_ng` reads from a YAML document's text, converted to a
/// JSON value, or where and why it fails.
pub uninterp spec fn yaml_document_value(text: Seq<char>) -> Result<JVal, (FailurePlace, Seq<char>)>;

/// What the `toml` crate reads from a TOML document's text, converted to a
/// JSON value, or where and why it fails.
pub uninterp spec fn toml_document_value(text: Seq<char>) -> Result<JVal, (FailurePlace, Seq<char>)>;

/// Parse a YAML document.
///
/// Trusted: `serde_yaml_ng::from_str::<serde_yaml_ng::Value>` (which
/// rejects duplicate keys), then `serde_json::to_value`, the value
/// converted one for one. A parse failure gives the line its location
/// names (from 1) and its `Display` text; a conversion failure gives no
/// place and its text. The outcome is named `yaml_document_value`;
/// converted values have as many keys as values.
#[verifier::external_body]
pub fn parse_yaml_document(text: &str) -> (r: Result<JsonValue, (FailurePlace, String)>)
    ensures
        placed_result(r) == yaml_document_value(text@),
        r matches Ok(v) ==> wf_json(v@),
{
    match serde_yaml_ng::from_str::<serde_yaml_ng::Value>(text) {
        Ok(value) => match serde_json::to_value(value) {
            Ok(v) => Ok(json_of(v)),
            Err(e) => Err((FailurePlace::Unknown, e.to_string())),
        },
        Err(e) => Err((e.location().map_or(FailurePlace::Unknown, |l| FailurePlace::Line(l.line())), e.to_string())),
    }
}

/// Parse a TOML document.
///
/// Trusted: `toml::from_str::<toml::Value>`, then `serde_json::to_value`,
/// the value converted one for one. A parse failure gives the byte where
/// its span starts and its `message()`; a conversion failure gives no
/// place and its text. The outcome is named `toml_document_value`;
/// converted values have as many keys as values.
#[verifier::external_body]
pub fn parse_toml_document(text: &str) -> (r: Result<JsonValue, (FailurePlace, String)>)
    ensures
        placed_result(r) == toml_document_value(text@),
        r matches Ok(v) ==> wf_json(v@),
{
    match toml::from_str::<toml::Value>(text) {
        Ok(value) => match serde_json::to_value(value) {
            Ok(v) => Ok(json_of(v)),
            Err(e) => Err((FailurePlace::Unknown, e.to_string())),
        },
        Err(e) => Err((e.span().map_or(FailurePlace::Unknown, |s| FailurePlace::Byte(s.start)), e.message().to_string())),
    }
}

/// What parsing the document `doc` of an input of `format` gives: its
/// value, or the input line and reason of its failure. TOML documents are
/// read as TOML, all others as YAML.
pub open spec fn document_parsed(
    format: Format,
    doc: (nat, Seq<char>),
    parsed: Result<JsonValue, (usize, String)>,
) -> bool {
    let outcome = if format == Format::Toml {
        toml_document_value(doc.1)
    } else {
        yaml_document_value(doc.1)
    };
    match outcome {
        Ok(v) => parsed matches Ok(x) && x@ == v && wf_json(v),
        Err((at, m)) => parsed matches Err((line, reason)) && line as nat == failure_line_at(doc.0, doc.1, at)
            && reason@ == m,
    }
}

/// Parse every document of an input of `format`, in order.
pub fn parse_documents(format: Format, documents: &[Document]) -> (r: Vec<Result<JsonValue, (usize, String)>>)
    ensures
        r.len() == documents.len(),
        forall|i: int| 0 <= i < r.len() ==> document_parsed(format, doc_view(documents@[i]), #[trigger] r@[i]),
{
    let mut r: Vec<Result<JsonValue, (usize, String)>> = Vec::new();
    let mut i: usize = 0;
    while i < documents.len()
        invariant
            i <= documents.len(),
            r.len() == i,
            forall|k: int| 0 <= k < i ==> document_parsed(format, doc_view(documents@[k]), #[trigger] r@[k]),
        decreases documents.len() - i,
    {
        let document = &documents[i];
        let outcome = match format {
            Format::Toml => parse_toml_document(document.text.as_str()),
            _ => parse_yaml_document(document.text.as_str()),
        };
        let item = match outcome {
            Ok(v) => Ok(v),
            Err((at, reason)) => Err((failure_line(document, at), reason)),
        };
        r.push(item);
        i = i + 1;
    }
    r
}

/// What `read` makes of one document: its record when it parsed, its
/// failure when it did not.
pub open spec fn document_item(
    format: Format,
    doc: (nat, Seq<char>),
    parsed: Result<JsonValue, (usize, String)>,
    item: Result<Record, RecordError>,
    parsed_any: bool,
) -> bool {
    match parsed {
        Ok(v) => item matches Ok(rec) && rec.source@ == trim_seq(doc.1) && rec.content
            == Content::Value(v),
        Err(f) => item matches Err(e) && parse_error(e, parsed_any, format, f.0 as nat, f.1@),
    }
}

/// The records `read` gives when it gives any: a failed first document
/// ends the input with that failure alone; otherwise one item per
/// document, a later failure being skipped.
pub open spec fn read_outcome(
    format: Format,
    docs: Seq<(nat, Seq<char>)>,
    parsed: Seq<Result<JsonValue, (usize, String)>>,
    out: Seq<Result<Record, RecordError>>,
) -> bool {
    if parsed.len() > 0 && parsed[0] is Err {
        out.len() == 1 && document_item(format, docs[0], parsed[0], out[0], false)
    } else {
        out.len() == parsed.len() && forall|i: int|
            #![trigger out[i]]
            0 <= i < out.len() ==> document_item(format, docs[i], parsed[i], out[i], i > 0)
    }
}

/// Records from the parsed documents: `parsed[i]` is document `i`'s value,
/// or the input line and reason of its failure. `None` when the first
/// document fails and the format was guessed; a forced format reports the
/// failure instead.
pub fn read(
    format: Format,
    documents: &[Document],
    parsed: Vec<Result<JsonValue, (usize, String)>>,
    forced: bool,
) -> (r: Option<Vec<Result<Record, RecordError>>>)
    requires
        parsed.len() == documents.len(),
    ensures
        r is None <==> (!forced && parsed.len() > 0 && parsed@[0] is Err),
        r matches Some(out) ==> read_outcome(format, docs_view(documents@), parsed@, out@),
{
    let ghost all = parsed@;
    let ghost docs = docs_view(documents@);
    let mut rest = into_deque(parsed);
    let mut out: Vec<Result<Record, RecordError>> = Vec::new();
    let mut index: usize = 0;
    while index < documents.len()
        invariant
            index <= documents.len(),
            all.len() == documents.len(),
            all == parsed@,
            docs == docs_view(documents@),
            rest@ == all.skip(index as int),
            out@.len() == index,
            index > 0 ==> all[0] is Ok,
            forall|i: int|
                #![trigger out@[i]]
                0 <= i < index ==> document_item(format, docs[i], all[i], out@[i], i > 0),
        decreases documents.len() - index,
    {
        let item = match rest.pop_front() {
            Some(item) => item,
            None => {
                return None;
            },
        };
        assert(item == all[index as int]);
        assert(docs[index as int] == doc_view(documents@[index as int]));
        match item {
            Ok(value) => {
                let v = chars_of(documents[index].text.as_str());
                let source = string_of(&trim(&v));
                out.push(Ok(Record::value(value, source)));
            },
            Err(failure) => {
                if index == 0 && !forced {
                    assert(all[0] is Err);
                    return None;
                }
                let (line, reason) = failure;
                out.push(Err(RecordError::parse(index > 0, format, line, reason)));
                if index == 0 {
                    proof {
                        assert(all[0] is Err);
                        assert(out@.len() == 1);
                        assert(document_item(format, docs[0], all[0], out@[0], false));
                    }
                    return Some(out);
                }
            },
        }
        assert(rest@ =~= all.skip(index + 1));
        index = index + 1;
    }
    proof {
        if all.len() > 0 && all[0] is Err {
            assert(false);
        }
    }
    Some(out)
}

} // verus!
