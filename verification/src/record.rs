//! A record: one parsed value plus its own source text.
//!
//! Convert mode writes [`Record::to_json`]; filters, templates and field
//! selectors read [`Record::view`], which always carries `$0`.

use vstd::prelude::*;
use crate::filter::{first_key, lookup};
use crate::json_text::append_chars;
use crate::text::{chars_of, push_char, split_words, string_of, to_lowercase, lowercase, trim, trim_seq, words_of};
use crate::value::{JVal, JsonValue, copy_items, lemma_view_arr, lemma_view_obj, wf_json};

verus! {

/// Key under which every view exposes the record's source text.
pub const SOURCE_KEY: &'static str = "$0";

/// The decimal digits of `n`.
pub open spec fn decimal_text(n: nat) -> Seq<char>
    decreases n,
{
    if n < 10 {
        seq![digit_char(n)]
    } else {
        decimal_text(n / 10) + seq![digit_char(n % 10)]
    }
}

/// The digit character for `d` below ten.
pub open spec fn digit_char(d: nat) -> char {
    seq!['0', '1', '2', '3', '4', '5', '6', '7', '8', '9'][d as int]
}

/// The decimal text of `n`.
pub fn usize_text(n: usize) -> (r: String)
    ensures
        r@ == decimal_text(n as nat),
    decreases n,
{
    let digits = ['0', '1', '2', '3', '4', '5', '6', '7', '8', '9'];
    assert(digits@ == seq!['0', '1', '2', '3', '4', '5', '6', '7', '8', '9']);
    if n < 10 {
        let mut s = String::new();
        push_char(&mut s, digits[n]);
        proof {
            assert(s@ =~= decimal_text(n as nat));
        }
        s
    } else {
        let mut s = usize_text(n / 10);
        push_char(&mut s, digits[n % 10]);
        proof {
            assert(s@ =~= decimal_text(n as nat));
        }
        s
    }
}

/// An object's members: keys and values side by side.
pub type Members = (Seq<Seq<char>>, Seq<JVal>);

/// Members after setting `key` to `value`: an existing key keeps its place
/// and takes the value, a new key goes last.
pub open spec fn put(m: Members, key: Seq<char>, value: JVal) -> Members {
    match first_key(m.0, key, 0) {
        Some(i) => (m.0, m.1.update(i, value)),
        None => (m.0.push(key), m.1.push(value)),
    }
}

/// Members after setting every pair of `pairs`, in order.
pub open spec fn put_all(m: Members, pairs: Seq<(Seq<char>, JVal)>) -> Members
    decreases pairs.len(),
{
    if pairs.len() == 0 {
        m
    } else {
        let prev = put_all(m, pairs.drop_last());
        put(prev, pairs.last().0, pairs.last().1)
    }
}

pub proof fn lemma_put_all_push(m: Members, pairs: Seq<(Seq<char>, JVal)>, p: (Seq<char>, JVal))
    ensures
        put_all(m, pairs.push(p)) == put(put_all(m, pairs), p.0, p.1),
{
    assert(pairs.push(p).drop_last() == pairs);
}

/// Keys and values side by side, every value well-formed.
pub open spec fn members_wf(m: Members) -> bool {
    m.0.len() == m.1.len() && forall|k: int| 0 <= k < m.1.len() ==> wf_json(#[trigger] m.1[k])
}

/// An exec object under construction.
pub struct ObjectBuilder {
    pub keys: Vec<String>,
    pub values: Vec<JsonValue>,
}

impl ObjectBuilder {
    /// The members built so far.
    pub open spec fn members(&self) -> Members {
        (
            self.keys@.map_values(|k: String| k@),
            Seq::new(self.values@.len(), |i: int| self.values@[i]@),
        )
    }

    pub fn new() -> (r: ObjectBuilder)
        ensures
            r.members() == (Seq::<Seq<char>>::empty(), Seq::<JVal>::empty()),
            r.keys@.len() == r.values@.len(),
    {
        let r = ObjectBuilder { keys: Vec::new(), values: Vec::new() };
        proof {
            assert(r.members().0 =~= Seq::<Seq<char>>::empty());
            assert(r.members().1 =~= Seq::<JVal>::empty());
        }
        r
    }

    /// Set `key` to `value`.
    pub fn put(&mut self, key: String, value: JsonValue)
        requires
            old(self).keys@.len() == old(self).values@.len(),
        ensures
            final(self).keys@.len() == final(self).values@.len(),
            final(self).members() == put(old(self).members(), key@, value@),
    {
        let ghost m = self.members();
        let mut i: usize = 0;
        while i < self.keys.len()
            invariant
                i <= self.keys.len(),
                self.keys@.len() == self.values@.len(),
                m == self.members(),
                m == old(self).members(),
                *self == *old(self),
                first_key(m.0, key@, 0) == first_key(m.0, key@, i as int),
            decreases self.keys.len() - i,
        {
            if crate::filter::string_eq(&self.keys[i], &key) {
                self.values.set(i, value);
                proof {
                    assert(m.0[i as int] == key@);
                    assert(first_key(m.0, key@, i as int) == Some(i as int));
                    assert(self.members().0 =~= m.0);
                    assert(self.members().1 =~= m.1.update(i as int, value@));
                }
                return;
            }
            i = i + 1;
        }
        let ghost k = key@;
        self.keys.push(key);
        self.values.push(value);
        proof {
            assert(self.members().0 =~= m.0.push(k));
            assert(self.members().1 =~= m.1.push(value@));
        }
    }

    /// The object built.
    pub fn build(self) -> (r: JsonValue)
        requires
            self.keys@.len() == self.values@.len(),
        ensures
            r@ == JVal::Obj(self.members().0, self.members().1),
    {
        let ghost m = self.members();
        let r = JsonValue::Object(self.keys, self.values);
        proof {
            lemma_view_obj(&r);
            assert(r@->Obj_0 =~= m.0);
            assert(r@->Obj_1 =~= m.1);
        }
        r
    }
}

/// A CSV header row: names as written, trimmed, and the lower-case keys
/// the expression language matches.
#[derive(Debug)]
pub struct CsvHeader {
    pub names: Vec<String>,
    pub keys: Vec<String>,
}

impl CsvHeader {
    pub fn new(fields: &Vec<String>) -> (r: CsvHeader)
        ensures
            r.names@.len() == fields@.len(),
            r.keys@.len() == fields@.len(),
            forall|i: int| 0 <= i < fields@.len() ==> (#[trigger] r.names@[i])@ == trim_seq(fields@[i]@),
            forall|i: int| 0 <= i < fields@.len() ==> (#[trigger] r.keys@[i])@ == lowercase(
                trim_seq(fields@[i]@),
            ),
    {
        let mut names: Vec<String> = Vec::new();
        let mut keys: Vec<String> = Vec::new();
        let mut i: usize = 0;
        while i < fields.len()
            invariant
                i <= fields.len(),
                names@.len() == i,
                keys@.len() == i,
                forall|k: int| 0 <= k < i ==> (#[trigger] names@[k])@ == trim_seq(fields@[k]@),
                forall|k: int| 0 <= k < i ==> (#[trigger] keys@[k])@ == lowercase(trim_seq(fields@[k]@)),
            decreases fields.len() - i,
        {
            let v = chars_of(fields[i].as_str());
            let name = string_of(&trim(&v));
            let key = to_lowercase(name.as_str());
            names.push(name);
            keys.push(key);
            i = i + 1;
        }
        CsvHeader { names, keys }
    }

    pub fn copy(&self) -> (r: CsvHeader)
        ensures
            r.names@.len() == self.names@.len(),
            r.keys@.len() == self.keys@.len(),
            forall|i: int| 0 <= i < self.names@.len() ==> (#[trigger] r.names@[i])@ == self.names@[i]@,
            forall|i: int| 0 <= i < self.keys@.len() ==> (#[trigger] r.keys@[i])@ == self.keys@[i]@,
    {
        CsvHeader { names: copy_strings(&self.names), keys: copy_strings(&self.keys) }
    }
}

/// Copies of `items`.
pub fn copy_strings(items: &Vec<String>) -> (r: Vec<String>)
    ensures
        r@.len() == items@.len(),
        forall|i: int| 0 <= i < items@.len() ==> (#[trigger] r@[i])@ == items@[i]@,
{
    let mut r: Vec<String> = Vec::new();
    let mut i: usize = 0;
    while i < items.len()
        invariant
            i <= items.len(),
            r@.len() == i,
            forall|k: int| 0 <= k < i ==> (#[trigger] r@[k])@ == items@[k]@,
        decreases items.len() - i,
    {
        r.push(items[i].clone());
        i = i + 1;
    }
    r
}

/// What a record holds.
#[derive(Debug)]
pub enum Content {
    /// JSON, YAML, TOML and logfmt.
    Value(JsonValue),
    /// A CSV row.
    Row { fields: Vec<String>, header: Option<CsvHeader> },
    /// A text line split on whitespace.
    Words(Vec<String>),
}

/// One unit of input: a parsed value and the text it came from.
#[derive(Debug)]
pub struct Record {
    pub source: String,
    pub content: Content,
}

/// The characters of each string.
pub open spec fn texts_of(items: Seq<String>) -> Seq<Seq<char>> {
    items.map_values(|s: String| s@)
}

/// An array of strings.
pub open spec fn strings(items: Seq<Seq<char>>) -> JVal {
    JVal::Arr(items.map_values(|s: Seq<char>| JVal::Str(s)))
}

/// The pairs `(name, field)` of a header row and a data row, as far as
/// both go.
pub open spec fn header_pairs(names: Seq<Seq<char>>, fields: Seq<Seq<char>>, n: int) -> Seq<(Seq<char>, JVal)>
    decreases n,
{
    if n <= 0 {
        Seq::empty()
    } else {
        header_pairs(names, fields, n - 1).push((names[n - 1], JVal::Str(fields[n - 1])))
    }
}

/// The shorter of two lengths.
pub open spec fn min_len(a: nat, b: nat) -> nat {
    if a < b {
        a
    } else {
        b
    }
}

/// The record as convert mode writes it: a value as itself, a row under a
/// header as an object of names to fields, other rows and text lines as
/// arrays of strings.
pub open spec fn record_json(c: Content) -> JVal {
    match c {
        Content::Value(v) => v@,
        Content::Row { fields, header } => match header {
            Some(h) => {
                let m = put_all(
                    (Seq::empty(), Seq::empty()),
                    header_pairs(
                        texts_of(h.names@),
                        texts_of(fields@),
                        min_len(h.names@.len(), fields@.len()) as int,
                    ),
                );
                JVal::Obj(m.0, m.1)
            },
            None => strings(texts_of(fields@)),
        },
        Content::Words(words) => strings(texts_of(words@)),
    }
}

/// The pairs an array's view sets: each index's text to its item.
pub open spec fn index_pairs(items: Seq<JVal>, n: int) -> Seq<(Seq<char>, JVal)>
    decreases n,
{
    if n <= 0 {
        Seq::empty()
    } else {
        index_pairs(items, n - 1).push((decimal_text((n - 1) as nat), items[n - 1]))
    }
}

/// The pairs a row's fields set: `1`… and `field_0`… to each field.
pub open spec fn field_pairs(fields: Seq<Seq<char>>, n: int) -> Seq<(Seq<char>, JVal)>
    decreases n,
{
    if n <= 0 {
        Seq::empty()
    } else {
        field_pairs(fields, n - 1).push((decimal_text(n as nat), JVal::Str(fields[n - 1]))).push(
            (seq!['f', 'i', 'e', 'l', 'd', '_'] + decimal_text((n - 1) as nat), JVal::Str(fields[n - 1])),
        )
    }
}

/// The pairs a header sets: each key, `$key` and `${key}` to its field.
pub open spec fn key_pairs(keys: Seq<Seq<char>>, fields: Seq<Seq<char>>, n: int) -> Seq<(Seq<char>, JVal)>
    decreases n,
{
    if n <= 0 {
        Seq::empty()
    } else {
        let f = JVal::Str(fields[n - 1]);
        let k = keys[n - 1];
        key_pairs(keys, fields, n - 1).push((k, f)).push((seq!['$'] + k, f)).push(
            (seq!['$', '{'] + k + seq!['}'], f),
        )
    }
}

/// The pairs a text line's words set: `word_0`… to each word.
pub open spec fn word_pairs(words: Seq<Seq<char>>, n: int) -> Seq<(Seq<char>, JVal)>
    decreases n,
{
    if n <= 0 {
        Seq::empty()
    } else {
        word_pairs(words, n - 1).push(
            (seq!['w', 'o', 'r', 'd', '_'] + decimal_text((n - 1) as nat), JVal::Str(words[n - 1])),
        )
    }
}

/// The members a value's view starts from: an object's own members, an
/// array's items under their indexes, nothing for a scalar.
pub open spec fn value_members(v: JVal) -> Members {
    match v {
        JVal::Obj(keys, values) => (keys, values),
        JVal::Arr(items) => put_all((Seq::empty(), Seq::empty()), index_pairs(items, items.len() as int)),
        _ => (Seq::empty(), Seq::empty()),
    }
}

/// The members of a content's view, before `$0`.
pub open spec fn content_members(c: Content, source: Seq<char>) -> Members {
    match c {
        Content::Value(v) => value_members(v@),
        Content::Row { fields, header } => {
            let fs = texts_of(fields@);
            let base = put_all(
                (Seq::empty(), Seq::empty()),
                seq![(seq!['0'], JVal::Str(source)), (seq!['$', '{', '0', '}'], JVal::Str(source))]
                    + field_pairs(fs, fs.len() as int),
            );
            let with_keys = match header {
                Some(h) => put_all(
                    base,
                    key_pairs(texts_of(h.keys@), fs, min_len(h.keys@.len(), fs.len()) as int),
                ),
                None => base,
            };
            put(with_keys, seq!['_', 'a', 'r', 'r', 'a', 'y'], strings(fs))
        },
        Content::Words(words) => {
            let ws = texts_of(words@);
            put(
                put_all((Seq::empty(), Seq::empty()), word_pairs(ws, ws.len() as int)),
                seq!['_', 'a', 'r', 'r', 'a', 'y'],
                strings(ws),
            )
        },
    }
}

/// The record as filters, templates and field selectors see it: an object
/// holding the content's members and `$0`, the source text.
pub open spec fn record_view(r: Record) -> JVal {
    let m = put(content_members(r.content, r.source@), seq!['$', '0'], JVal::Str(r.source@));
    JVal::Obj(m.0, m.1)
}

/// A value's content is well-formed.
pub open spec fn content_wf(c: Content) -> bool {
    match c {
        Content::Value(v) => wf_json(v@),
        Content::Row { fields, header } => match header {
            Some(h) => h.names@.len() == h.keys@.len(),
            None => true,
        },
        Content::Words(_) => true,
    }
}

impl Record {
    /// A JSON, YAML, TOML or logfmt value.
    pub fn value(value: JsonValue, source: String) -> (r: Record)
        ensures
            r.source@ == source@,
            r.content == Content::Value(value),
    {
        Record { source, content: Content::Value(value) }
    }

    /// A CSV row, keyed by `header` when the input has one.
    pub fn row(fields: Vec<String>, header: Option<CsvHeader>, source: String) -> (r: Record)
        ensures
            r.source@ == source@,
            r.content == (Content::Row { fields, header }),
    {
        Record { source, content: Content::Row { fields, header } }
    }

    /// A text line, split into its whitespace-separated words.
    pub fn text(line: String) -> (r: Record)
        ensures
            r.source@ == line@,
            r.content matches Content::Words(ws) && texts_of(ws@) == words_of(line@),
    {
        let v = chars_of(line.as_str());
        let split = split_words(&v);
        let mut words: Vec<String> = Vec::new();
        let mut i: usize = 0;
        while i < split.len()
            invariant
                i <= split.len(),
                words@.len() == i,
                forall|k: int| 0 <= k < i ==> (#[trigger] words@[k])@ == split@[k]@,
            decreases split.len() - i,
        {
            words.push(string_of(&split[i]));
            i = i + 1;
        }
        proof {
            assert(texts_of(words@) =~= words_of(v@));
        }
        Record { source: line, content: Content::Words(words) }
    }

    /// Whether the record's content is well-formed, as `to_json` and
    /// `view` require.
    pub fn is_well_formed(&self) -> (r: bool)
        ensures
            r == content_wf(self.content),
    {
        match &self.content {
            Content::Value(v) => crate::value::well_formed(v),
            Content::Row { fields, header } => match header {
                Some(h) => h.names.len() == h.keys.len(),
                None => true,
            },
            Content::Words(_) => true,
        }
    }

    /// The record's own source text, exposed as `$0`.
    pub fn source(&self) -> (r: &str)
        ensures
            r@ == self.source@,
    {
        self.source.as_str()
    }

    /// The record as convert mode writes it.
    pub fn to_json(&self) -> (r: JsonValue)
        requires
            content_wf(self.content),
        ensures
            r@ == record_json(self.content),
    {
        match &self.content {
            Content::Value(value) => value.copy(),
            Content::Row { fields, header: Some(header) } => {
                let mut b = ObjectBuilder::new();
                let n = if header.names.len() < fields.len() {
                    header.names.len()
                } else {
                    fields.len()
                };
                let ghost names = texts_of(header.names@);
                let ghost fs = texts_of(fields@);
                let mut i: usize = 0;
                while i < n
                    invariant
                        i <= n,
                        n <= header.names.len(),
                        n <= fields.len(),
                        b.keys@.len() == b.values@.len(),
                        names == texts_of(header.names@),
                        fs == texts_of(fields@),
                        b.members() == put_all((Seq::empty(), Seq::empty()), header_pairs(names, fs, i as int)),
                    decreases n - i,
                {
                    let value = JsonValue::Str(fields[i].clone());
                    proof {
                        lemma_put_all_push(
                            (Seq::empty(), Seq::empty()),
                            header_pairs(names, fs, i as int),
                            (names[i as int], JVal::Str(fs[i as int])),
                        );
                    }
                    b.put(header.names[i].clone(), value);
                    i = i + 1;
                }
                b.build()
            },
            Content::Row { fields, header: None } => strings_value(fields),
            Content::Words(words) => strings_value(words),
        }
    }

    /// The record as filters, templates and field selectors see it.
    pub fn view(&self) -> (r: JsonValue)
        requires
            content_wf(self.content),
        ensures
            r@ == record_view(*self),
    {
        let mut b = match &self.content {
            Content::Value(value) => value_builder(value),
            Content::Row { fields, header } => row_builder(fields, header, &self.source),
            Content::Words(words) => words_builder(words),
        };
        b.put(chars_string(&['$', '0']), JsonValue::Str(self.source.clone()));
        proof {
            assert(['$', '0']@ == seq!['$', '0']);
        }
        b.build()
    }
}

/// A `String` of the characters `cs`.
pub fn chars_string(cs: &[char]) -> (r: String)
    ensures
        r@ == cs@,
{
    string_of(cs)
}

/// `prefix` followed by the decimal text of `n`.
fn prefixed(prefix: &[char], n: usize) -> (r: String)
    ensures
        r@ == prefix@ + decimal_text(n as nat),
{
    let mut s = string_of(prefix);
    let t = usize_text(n);
    s.append(t.as_str());
    s
}

pub proof fn lemma_put_all_concat(m: Members, a: Seq<(Seq<char>, JVal)>, b: Seq<(Seq<char>, JVal)>)
    ensures
        put_all(m, a + b) == put_all(put_all(m, a), b),
    decreases b.len(),
{
    if b.len() == 0 {
        assert(a + b == a);
    } else {
        assert((a + b).drop_last() == a + b.drop_last());
        assert((a + b).last() == b.last());
        lemma_put_all_concat(m, a, b.drop_last());
    }
}

fn value_builder(value: &JsonValue) -> (b: ObjectBuilder)
    requires
        wf_json(value@),
    ensures
        b.keys@.len() == b.values@.len(),
        b.members() == value_members(value@),
{
    match value {
        JsonValue::Object(keys, values) => {
            proof {
                lemma_view_obj(value);
            }
            let b = ObjectBuilder { keys: copy_strings(keys), values: copy_items(values) };
            proof {
                assert(b.members().0 =~= value@->Obj_0);
                assert(b.members().1 =~= value@->Obj_1);
            }
            b
        },
        JsonValue::Array(items) => {
            proof {
                lemma_view_arr(value);
            }
            let ghost iv = value@->Arr_0;
            let mut b = ObjectBuilder::new();
            let mut i: usize = 0;
            while i < items.len()
                invariant
                    i <= items.len(),
                    iv.len() == items.len(),
                    forall|k: int| 0 <= k < items.len() ==> #[trigger] iv[k] == items@[k]@,
                    b.keys@.len() == b.values@.len(),
                    b.members() == put_all((Seq::empty(), Seq::empty()), index_pairs(iv, i as int)),
                decreases items.len() - i,
            {
                proof {
                    lemma_put_all_push(
                        (Seq::empty(), Seq::empty()),
                        index_pairs(iv, i as int),
                        (decimal_text(i as nat), iv[i as int]),
                    );
                }
                b.put(usize_text(i), items[i].copy());
                i = i + 1;
            }
            b
        },
        _ => ObjectBuilder::new(),
    }
}

#[verifier::loop_isolation(false)]
fn row_builder(fields: &Vec<String>, header: &Option<CsvHeader>, source: &String) -> (b: ObjectBuilder)
    requires
        header matches Some(h) ==> h.names@.len() == h.keys@.len(),
    ensures
        b.keys@.len() == b.values@.len(),
        b.members() == content_members(Content::Row { fields: *fields, header: *header }, source@),
{
    let ghost fs = texts_of(fields@);
    let ghost src = JVal::Str(source@);
    let ghost empty: Members = (Seq::empty(), Seq::empty());
    let ghost first = seq![(seq!['0'], src), (seq!['$', '{', '0', '}'], src)];
    let mut b = ObjectBuilder::new();
    b.put(chars_string(&['0']), JsonValue::Str(source.clone()));
    b.put(chars_string(&['$', '{', '0', '}']), JsonValue::Str(source.clone()));
    proof {
        assert(['0']@ == seq!['0']);
        assert(['$', '{', '0', '}']@ == seq!['$', '{', '0', '}']);
        let p0 = (seq!['0'], src);
        let p1 = (seq!['$', '{', '0', '}'], src);
        assert(first == Seq::<(Seq<char>, JVal)>::empty().push(p0).push(p1));
        lemma_put_all_push(empty, Seq::<(Seq<char>, JVal)>::empty(), p0);
        lemma_put_all_push(empty, Seq::<(Seq<char>, JVal)>::empty().push(p0), p1);
        assert(b.members() == put_all(empty, first));
        assert(first + field_pairs(fs, 0) == first);
    }
    let mut i: usize = 0;
    while i < fields.len()
        invariant
            i <= fields.len(),
            b.keys@.len() == b.values@.len(),
            b.members() == put_all(empty, first + field_pairs(fs, i as int)),
        decreases fields.len() - i,
    {
        let ghost f = JVal::Str(fs[i as int]);
        let ghost p1 = (decimal_text((i + 1) as nat), f);
        let ghost p2 = (seq!['f', 'i', 'e', 'l', 'd', '_'] + decimal_text(i as nat), f);
        proof {
            assert(field_pairs(fs, i + 1) == field_pairs(fs, i as int).push(p1).push(p2));
            assert(first + field_pairs(fs, i + 1) == (first + field_pairs(fs, i as int)).push(p1).push(p2));
            lemma_put_all_push(empty, first + field_pairs(fs, i as int), p1);
            lemma_put_all_push(empty, (first + field_pairs(fs, i as int)).push(p1), p2);
            assert(['f', 'i', 'e', 'l', 'd', '_']@ == seq!['f', 'i', 'e', 'l', 'd', '_']);
        }
        b.put(usize_text(i + 1), JsonValue::Str(fields[i].clone()));
        b.put(prefixed(&['f', 'i', 'e', 'l', 'd', '_'], i), JsonValue::Str(fields[i].clone()));
        i = i + 1;
    }
    let ghost base = put_all(empty, first + field_pairs(fs, fs.len() as int));
    match header {
        Some(h) => {
            let n = if h.keys.len() < fields.len() {
                h.keys.len()
            } else {
                fields.len()
            };
            let ghost ks = texts_of(h.keys@);
            let mut i: usize = 0;
            proof {
                assert(key_pairs(ks, fs, 0) == Seq::<(Seq<char>, JVal)>::empty());
                assert(put_all(base, key_pairs(ks, fs, 0)) == base);
            }
            while i < n
                invariant
                    i <= n,
                    b.keys@.len() == b.values@.len(),
                    b.members() == put_all(base, key_pairs(ks, fs, i as int)),
                decreases n - i,
            {
                let ghost f = JVal::Str(fs[i as int]);
                let ghost k = ks[i as int];
                let ghost p1 = (k, f);
                let ghost p2 = (seq!['$'] + k, f);
                let ghost p3 = (seq!['$', '{'] + k + seq!['}'], f);
                proof {
                    assert(key_pairs(ks, fs, i + 1) == key_pairs(ks, fs, i as int).push(p1).push(p2).push(p3));
                    lemma_put_all_push(base, key_pairs(ks, fs, i as int), p1);
                    lemma_put_all_push(base, key_pairs(ks, fs, i as int).push(p1), p2);
                    lemma_put_all_push(base, key_pairs(ks, fs, i as int).push(p1).push(p2), p3);
                    assert(['$']@ == seq!['$']);
                    assert(['$', '{']@ == seq!['$', '{']);
                }
                let key = h.keys[i].clone();
                b.put(key.clone(), JsonValue::Str(fields[i].clone()));
                let mut dollar = chars_string(&['$']);
                dollar.append(key.as_str());
                b.put(dollar, JsonValue::Str(fields[i].clone()));
                let mut braced = chars_string(&['$', '{']);
                braced.append(key.as_str());
                push_char(&mut braced, '}');
                proof {
                    assert(braced@ =~= seq!['$', '{'] + k + seq!['}']);
                }
                b.put(braced, JsonValue::Str(fields[i].clone()));
                i = i + 1;
            }
        },
        None => {},
    }
    b.put(chars_string(&['_', 'a', 'r', 'r', 'a', 'y']), strings_value(fields));
    proof {
        assert(['_', 'a', 'r', 'r', 'a', 'y']@ == seq!['_', 'a', 'r', 'r', 'a', 'y']);
    }
    b
}

fn words_builder(words: &Vec<String>) -> (b: ObjectBuilder)
    ensures
        b.keys@.len() == b.values@.len(),
        b.members() == content_members(Content::Words(*words), Seq::empty()),
{
    let ghost ws = texts_of(words@);
    let ghost empty: Members = (Seq::empty(), Seq::empty());
    let mut b = ObjectBuilder::new();
    let mut i: usize = 0;
    while i < words.len()
        invariant
            i <= words.len(),
            ws == texts_of(words@),
            b.keys@.len() == b.values@.len(),
            b.members() == put_all(empty, word_pairs(ws, i as int)),
        decreases words.len() - i,
    {
        let ghost p = (seq!['w', 'o', 'r', 'd', '_'] + decimal_text(i as nat), JVal::Str(ws[i as int]));
        proof {
            lemma_put_all_push(empty, word_pairs(ws, i as int), p);
            assert(['w', 'o', 'r', 'd', '_']@ == seq!['w', 'o', 'r', 'd', '_']);
        }
        b.put(prefixed(&['w', 'o', 'r', 'd', '_'], i), JsonValue::Str(words[i].clone()));
        i = i + 1;
    }
    b.put(chars_string(&['_', 'a', 'r', 'r', 'a', 'y']), strings_value(words));
    proof {
        assert(['_', 'a', 'r', 'r', 'a', 'y']@ == seq!['_', 'a', 'r', 'r', 'a', 'y']);
    }
    b
}

/// An array of the strings `items`.
pub fn strings_value(items: &Vec<String>) -> (r: JsonValue)
    ensures
        r@ == strings(texts_of(items@)),
{
    let mut out: Vec<JsonValue> = Vec::new();
    let mut i: usize = 0;
    while i < items.len()
        invariant
            i <= items.len(),
            out@.len() == i,
            forall|k: int| 0 <= k < i ==> (#[trigger] out@[k])@ == JVal::Str(items@[k]@),
        decreases items.len() - i,
    {
        out.push(JsonValue::Str(items[i].clone()));
        i = i + 1;
    }
    let r = JsonValue::Array(out);
    proof {
        lemma_view_arr(&r);
        assert(r@->Arr_0 =~= texts_of(items@).map_values(|s: Seq<char>| JVal::Str(s)));
    }
    r
}

/// Setting a well-formed value keeps members well-formed.
pub proof fn lemma_put_wf(m: Members, key: Seq<char>, value: JVal)
    requires
        members_wf(m),
        wf_json(value),
    ensures
        members_wf(put(m, key, value)),
{
    let r = put(m, key, value);
    crate::filter::lemma_first_key(m.0, key, 0);
    assert forall|k: int| 0 <= k < r.1.len() implies wf_json(#[trigger] r.1[k]) by {
        match first_key(m.0, key, 0) {
            Some(i) => {
                if k != i {
                    assert(r.1[k] == m.1[k]);
                }
            },
            None => {
                if k < m.1.len() {
                    assert(r.1[k] == m.1[k]);
                }
            },
        }
    }
}

/// Setting well-formed values keeps members well-formed.
pub proof fn lemma_put_all_wf(m: Members, pairs: Seq<(Seq<char>, JVal)>)
    requires
        members_wf(m),
        forall|k: int| 0 <= k < pairs.len() ==> wf_json(#[trigger] pairs[k].1),
    ensures
        members_wf(put_all(m, pairs)),
    decreases pairs.len(),
{
    if pairs.len() > 0 {
        assert forall|k: int| 0 <= k < pairs.drop_last().len() implies wf_json(
            #[trigger] pairs.drop_last()[k].1,
        ) by {
            assert(pairs.drop_last()[k] == pairs[k]);
        }
        lemma_put_all_wf(m, pairs.drop_last());
        assert(wf_json(pairs[pairs.len() - 1].1));
        lemma_put_wf(put_all(m, pairs.drop_last()), pairs.last().0, pairs.last().1);
    }
}

proof fn lemma_strings_wf(items: Seq<Seq<char>>)
    ensures
        wf_json(strings(items)),
{
    let a = items.map_values(|s: Seq<char>| JVal::Str(s));
    assert forall|k: int| 0 <= k < a.len() implies wf_json(#[trigger] a[k]) by {
        assert(a[k] == JVal::Str(items[k]));
    }
}

proof fn lemma_index_pairs(items: Seq<JVal>, n: int)
    requires
        0 <= n <= items.len(),
    ensures
        index_pairs(items, n).len() == n,
        forall|k: int| 0 <= k < n ==> #[trigger] index_pairs(items, n)[k].1 == items[k],
    decreases n,
{
    if n > 0 {
        lemma_index_pairs(items, n - 1);
    }
}

proof fn lemma_field_pairs(fs: Seq<Seq<char>>, n: int)
    requires
        0 <= n <= fs.len(),
    ensures
        forall|k: int| 0 <= k < field_pairs(fs, n).len() ==> (#[trigger] field_pairs(fs, n)[k].1) is Str,
    decreases n,
{
    if n > 0 {
        lemma_field_pairs(fs, n - 1);
        let prev = field_pairs(fs, n - 1);
        assert forall|k: int| 0 <= k < field_pairs(fs, n).len() implies (#[trigger] field_pairs(fs, n)[k].1) is Str by {
            if k < prev.len() {
                assert(field_pairs(fs, n)[k] == prev[k]);
            }
        }
    }
}

proof fn lemma_key_pairs(ks: Seq<Seq<char>>, fs: Seq<Seq<char>>, n: int)
    requires
        0 <= n <= fs.len(),
        n <= ks.len(),
    ensures
        forall|k: int| 0 <= k < key_pairs(ks, fs, n).len() ==> (#[trigger] key_pairs(ks, fs, n)[k].1) is Str,
    decreases n,
{
    if n > 0 {
        lemma_key_pairs(ks, fs, n - 1);
        let prev = key_pairs(ks, fs, n - 1);
        assert forall|k: int| 0 <= k < key_pairs(ks, fs, n).len() implies (#[trigger] key_pairs(ks, fs, n)[k].1) is Str by {
            if k < prev.len() {
                assert(key_pairs(ks, fs, n)[k] == prev[k]);
            }
        }
    }
}

proof fn lemma_word_pairs(ws: Seq<Seq<char>>, n: int)
    requires
        0 <= n <= ws.len(),
    ensures
        forall|k: int| 0 <= k < word_pairs(ws, n).len() ==> (#[trigger] word_pairs(ws, n)[k].1) is Str,
    decreases n,
{
    if n > 0 {
        lemma_word_pairs(ws, n - 1);
        let prev = word_pairs(ws, n - 1);
        assert forall|k: int| 0 <= k < word_pairs(ws, n).len() implies (#[trigger] word_pairs(ws, n)[k].1) is Str by {
            if k < prev.len() {
                assert(word_pairs(ws, n)[k] == prev[k]);
            }
        }
    }
}

/// The pairs of a header row and a data row hold strings.
proof fn lemma_header_pairs_wf(names: Seq<Seq<char>>, fields: Seq<Seq<char>>, n: int)
    ensures
        forall|k: int| 0 <= k < header_pairs(names, fields, n).len() ==> wf_json(#[trigger] header_pairs(names, fields, n)[k].1),
    decreases n,
{
    if n > 0 {
        lemma_header_pairs_wf(names, fields, n - 1);
        let p = header_pairs(names, fields, n - 1);
        assert forall|k: int| 0 <= k < header_pairs(names, fields, n).len() implies wf_json(#[trigger] header_pairs(names, fields, n)[k].1) by {
            if k < p.len() {
                assert(header_pairs(names, fields, n)[k] == p[k]);
            }
        }
    }
}

/// What convert mode writes of a well-formed record is well-formed.
pub proof fn lemma_json_wf(c: Content)
    requires
        content_wf(c),
    ensures
        wf_json(record_json(c)),
{
    match c {
        Content::Value(v) => {},
        Content::Row { fields, header } => match header {
            Some(h) => {
                let pairs = header_pairs(
                    texts_of(h.names@),
                    texts_of(fields@),
                    min_len(h.names@.len(), fields@.len()) as int,
                );
                lemma_header_pairs_wf(texts_of(h.names@), texts_of(fields@), min_len(h.names@.len(), fields@.len()) as int);
                let empty: Members = (Seq::empty(), Seq::empty());
                assert(members_wf(empty));
                lemma_put_all_wf(empty, pairs);
            },
            None => lemma_strings_wf(texts_of(fields@)),
        },
        Content::Words(words) => lemma_strings_wf(texts_of(words@)),
    }
}

/// A record's view is a well-formed value.
pub proof fn lemma_view_wf(r: Record)
    requires
        content_wf(r.content),
    ensures
        wf_json(record_view(r)),
        members_wf(content_members(r.content, r.source@)),
{
    let empty: Members = (Seq::empty(), Seq::empty());
    assert(members_wf(empty));
    let src = r.source@;
    let cm = content_members(r.content, src);
    match r.content {
        Content::Value(v) => {
            match v@ {
                JVal::Obj(keys, values) => {},
                JVal::Arr(items) => {
                    lemma_index_pairs(items, items.len() as int);
                    lemma_put_all_wf(empty, index_pairs(items, items.len() as int));
                },
                _ => {},
            }
        },
        Content::Row { fields, header } => {
            let fs = texts_of(fields@);
            let first = seq![(seq!['0'], JVal::Str(src)), (seq!['$', '{', '0', '}'], JVal::Str(src))];
            lemma_field_pairs(fs, fs.len() as int);
            let all = first + field_pairs(fs, fs.len() as int);
            assert forall|k: int| 0 <= k < all.len() implies wf_json(#[trigger] all[k].1) by {
                if k >= 2 {
                    assert(all[k] == field_pairs(fs, fs.len() as int)[k - 2]);
                }
            }
            lemma_put_all_wf(empty, all);
            let base = put_all(empty, all);
            let with_keys = match header {
                Some(h) => {
                    let ks = texts_of(h.keys@);
                    let n = min_len(h.keys@.len(), fs.len()) as int;
                    lemma_key_pairs(ks, fs, n);
                    lemma_put_all_wf(base, key_pairs(ks, fs, n));
                    put_all(base, key_pairs(ks, fs, n))
                },
                None => base,
            };
            lemma_strings_wf(fs);
            lemma_put_wf(with_keys, seq!['_', 'a', 'r', 'r', 'a', 'y'], strings(fs));
        },
        Content::Words(words) => {
            let ws = texts_of(words@);
            lemma_word_pairs(ws, ws.len() as int);
            lemma_put_all_wf(empty, word_pairs(ws, ws.len() as int));
            lemma_strings_wf(ws);
            lemma_put_wf(
                put_all(empty, word_pairs(ws, ws.len() as int)),
                seq!['_', 'a', 'r', 'r', 'a', 'y'],
                strings(ws),
            );
        },
    }
    assert(members_wf(cm));
    lemma_put_wf(cm, seq!['$', '0'], JVal::Str(src));
    let m = put(cm, seq!['$', '0'], JVal::Str(src));
    assert(wf_json(JVal::Obj(m.0, m.1)));
}


/// `${0}` always refers to the original input: in the view of every
/// well-formed record, of every format, `$0` holds the record's own source
/// text, and a template field `$0` renders as that text.
pub proof fn lemma_source_variable(r: Record)
    requires
        content_wf(r.content),
    ensures
        lookup(seq![seq!['$', '0']], record_view(r)) == Some(JVal::Str(r.source@)),
        crate::filter::rendered(seq![crate::filter::TItem::Field(seq![seq!['$', '0']])], record_view(r))
            == r.source@,
{
    lemma_view_wf(r);
    let key = seq!['$', '0'];
    let val = JVal::Str(r.source@);
    let cm = content_members(r.content, r.source@);
    let m = put(cm, key, val);
    assert(record_view(r) == JVal::Obj(m.0, m.1));
    assert(m.0.len() == m.1.len());
    crate::filter::lemma_first_key(cm.0, key, 0);
    crate::filter::lemma_first_key(m.0, key, 0);
    match first_key(cm.0, key, 0) {
        Some(i) => {
            assert(first_key(m.0, key, 0) == Some(i));
            assert(i < cm.1.len());
            assert(m.1[i] == val);
        },
        None => {
            let n = cm.0.len() as int;
            assert(m.0[n] == key);
            match first_key(m.0, key, 0) {
                Some(j) => {
                    if j < n {
                        assert(m.0[j] == cm.0[j]);
                    }
                    assert(j == n);
                },
                None => {
                    assert(false);
                },
            }
            assert(m.1[n] == val);
        },
    }
    let path = seq![key];
    assert(path[0] == key);
    assert(path.drop_first() =~= Seq::<Seq<char>>::empty());
    assert(lookup(path.drop_first(), val) == Some(val));
    assert(crate::filter::step_into(record_view(r), key) == Some(val));
    assert(lookup(path, record_view(r)) == Some(val));
    let t = seq![crate::filter::TItem::Field(path)];
    assert(crate::filter::render_items(t, 0, record_view(r)) == Seq::<char>::empty());
    assert(t[0] == crate::filter::TItem::Field(path));
    assert(crate::filter::render_item(t[0], record_view(r)) == r.source@);
    assert(crate::filter::render_items(t, 1, record_view(r)) =~= Seq::<char>::empty() + r.source@);
    assert(crate::filter::rendered(t, record_view(r)) =~= r.source@);
}

} // verus!
