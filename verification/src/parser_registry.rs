//! Whole documents parsed by the first registered parser that takes them.
//!
//! A registry holds JSON, TOML and YAML parsers in registration order. To
//! parse a document it tries, first, the parsers of the formats the
//! detector names with confidence above one half, in the detector's order,
//! and then every parser whose format the document plausibly is, in
//! registration order; the first that parses the document gives its value.

use vstd::prelude::*;
use crate::format_detector::{
    detect_spec, is_byte_boundary, lead_ws_exec, likely_toml, likely_yaml, DetectedFormat,
    FormatDetector,
};
use crate::text::{chars_of, starts_with_seq, trim_start_seq};
use crate::serde_values::json_of;
use crate::value::{wf_json, JVal, JsonValue};

verus! {

/// Whether `serde_json` reads `text` as one JSON value.
pub uninterp spec fn json_document(text: Seq<char>) -> bool;

/// Whether `toml` reads `text` as a TOML document.
pub uninterp spec fn toml_document(text: Seq<char>) -> bool;

/// Whether `serde_yaml` reads `text` as one YAML value.
pub uninterp spec fn yaml_document(text: Seq<char>) -> bool;

/// Trusted: `serde_json::from_str::<serde_json::Value>(text).is_ok()`.
/// Which texts serde_json accepts is its JSON grammar, not restated; the
/// answer is named `json_document`.
#[verifier::external_body]
fn parses_as_json(text: &str) -> (r: bool)
    ensures
        r == json_document(text@),
{
    serde_json::from_str::<serde_json::Value>(text).is_ok()
}

/// Trusted: `toml::from_str::<toml::Value>(text).is_ok()`. Which texts the
/// toml crate accepts is its TOML grammar, not restated; the answer is
/// named `toml_document`.
#[verifier::external_body]
fn parses_as_toml(text: &str) -> (r: bool)
    ensures
        r == toml_document(text@),
{
    toml::from_str::<toml::Value>(text).is_ok()
}

/// Trusted: `serde_yaml::from_str::<serde_yaml::Value>(text).is_ok()`.
/// Which texts serde_yaml accepts is its YAML grammar, not restated; the
/// answer is named `yaml_document`.
#[verifier::external_body]
fn parses_as_yaml(text: &str) -> (r: bool)
    ensures
        r == yaml_document(text@),
{
    serde_yaml::from_str::<serde_yaml::Value>(text).is_ok()
}

/// A parse outcome as plain values.
pub open spec fn value_result(r: Result<JsonValue, String>) -> Result<JVal, Seq<char>> {
    match r {
        Ok(v) => Ok(v@),
        Err(m) => Err(m@),
    }
}

/// What `serde_json` reads from `text` as one JSON value, or its error's
/// text.
pub uninterp spec fn json_parse(text: Seq<char>) -> Result<JVal, Seq<char>>;

/// What the `toml` crate reads from `text`, converted to a JSON value, or
/// the error's text.
pub uninterp spec fn toml_parse(text: Seq<char>) -> Result<JVal, Seq<char>>;

/// What `serde_yaml` reads from `text`, converted to a JSON value, or the
/// error's text.
pub uninterp spec fn yaml_parse(text: Seq<char>) -> Result<JVal, Seq<char>>;

/// Trusted: `serde_json::from_str::<serde_json::Value>(text)`, the value
/// converted one for one, an error as its `Display` text; named
/// `json_parse`. It succeeds exactly where `parses_as_json` does, the same
/// call; converted values have as many keys as values.
#[verifier::external_body]
fn parse_json_text(text: &str) -> (r: Result<JsonValue, String>)
    ensures
        value_result(r) == json_parse(text@),
        r is Ok <==> json_document(text@),
        r matches Ok(v) ==> wf_json(v@),
{
    serde_json::from_str::<serde_json::Value>(text).map(json_of).map_err(|e| e.to_string())
}

/// Trusted: `toml::from_str::<toml::Value>(text)`, then
/// `serde_json::to_value`, the value converted one for one, an error of
/// either as its `Display` text; named `toml_parse`. It succeeds only where
/// `toml::from_str` does, which `parses_as_toml` tests; converted values
/// have as many keys as values.
#[verifier::external_body]
fn parse_toml_text(text: &str) -> (r: Result<JsonValue, String>)
    ensures
        value_result(r) == toml_parse(text@),
        r is Ok ==> toml_document(text@),
        r matches Ok(v) ==> wf_json(v@),
{
    let value = toml::from_str::<toml::Value>(text).map_err(|e| e.to_string())?;
    serde_json::to_value(value).map(json_of).map_err(|e| e.to_string())
}

/// Trusted: `serde_yaml::from_str::<serde_yaml::Value>(text)`, then
/// `serde_json::to_value`, the value converted one for one, an error of
/// either as its `Display` text; named `yaml_parse`. It succeeds only where
/// `serde_yaml::from_str` does, which `parses_as_yaml` tests; converted
/// values have as many keys as values.
#[verifier::external_body]
fn parse_yaml_text(text: &str) -> (r: Result<JsonValue, String>)
    ensures
        value_result(r) == yaml_parse(text@),
        r is Ok ==> yaml_document(text@),
        r matches Ok(v) ==> wf_json(v@),
{
    let value = serde_yaml::from_str::<serde_yaml::Value>(text).map_err(|e| e.to_string())?;
    serde_json::to_value(value).map(json_of).map_err(|e| e.to_string())
}

/// What parser `k` reads from `text`.
pub open spec fn kind_parse(k: ParserKind, text: Seq<char>) -> Result<JVal, Seq<char>> {
    match k {
        ParserKind::Json => json_parse(text),
        ParserKind::Toml => toml_parse(text),
        ParserKind::Yaml => yaml_parse(text),
    }
}

/// Which of the parsers `kinds` read `text`.
pub open spec fn parse_oks(kinds: Seq<ParserKind>, text: Seq<char>) -> Seq<bool> {
    Seq::new(kinds.len(), |i: int| kind_parse(kinds[i], text) is Ok)
}

/// Parse `input` with the parser of kind `k`.
fn parse_with(k: ParserKind, input: &str) -> (r: Result<JsonValue, String>)
    ensures
        value_result(r) == kind_parse(k, input@),
        r matches Ok(v) ==> wf_json(v@),
{
    match k {
        ParserKind::Json => parse_json_text(input),
        ParserKind::Toml => parse_toml_text(input),
        ParserKind::Yaml => parse_yaml_text(input),
    }
}

/// The kinds of document parser.
#[derive(Debug, Clone, Copy, PartialEq, Eq, Structural)]
pub enum ParserKind {
    Json,
    Toml,
    Yaml,
}

/// The name of a parser's format.
pub open spec fn kind_name(k: ParserKind) -> Seq<char> {
    match k {
        ParserKind::Json => seq!['J', 'S', 'O', 'N'],
        ParserKind::Toml => seq!['T', 'O', 'M', 'L'],
        ParserKind::Yaml => seq!['Y', 'A', 'M', 'L'],
    }
}

/// Whether `input` plausibly is the parser's format, before it is parsed:
/// JSON starts with `{` or `[` after whitespace; TOML and YAML are as the
/// format detector judges them.
pub open spec fn plausible(k: ParserKind, input: Seq<char>) -> bool {
    match k {
        ParserKind::Json => starts_with_seq(trim_start_seq(input), seq!['{']) || starts_with_seq(
            trim_start_seq(input),
            seq!['['],
        ),
        ParserKind::Toml => likely_toml(input),
        ParserKind::Yaml => likely_yaml(input),
    }
}

/// Whether the parser's own parse of `input` succeeds.
pub open spec fn parses(k: ParserKind, input: Seq<char>) -> bool {
    match k {
        ParserKind::Json => json_document(input),
        ParserKind::Toml => toml_document(input),
        ParserKind::Yaml => yaml_document(input),
    }
}

/// The JSON document parser.
pub struct JsonParser;

/// The TOML document parser.
pub struct TomlParser;

/// The YAML document parser.
pub struct YamlParser;

/// Whether `input`, after leading whitespace, starts with `{` or `[`.
fn opens_json(input: &str) -> (r: bool)
    ensures
        r == plausible(ParserKind::Json, input@),
{
    let v = chars_of(input);
    let k = lead_ws_exec(&v);
    proof {
        let t = trim_start_seq(input@);
        assert(t == v@.skip(k as int));
        if k < v.len() {
            assert(t[0] == v@[k as int]);
        }
        assert(starts_with_seq(t, seq!['{']) == (t.len() > 0 && t[0] == '{')) by {
            if t.len() > 0 {
                assert(t.take(1) =~= seq![t[0]]);
                if t[0] == '{' {
                    assert(t.take(1) =~= seq!['{']);
                }
                if t.take(1) == seq!['{'] {
                    assert(t.take(1)[0] == '{');
                }
            }
        }
        assert(starts_with_seq(t, seq!['[']) == (t.len() > 0 && t[0] == '[')) by {
            if t.len() > 0 {
                assert(t.take(1) =~= seq![t[0]]);
                if t[0] == '[' {
                    assert(t.take(1) =~= seq!['[']);
                }
                if t.take(1) == seq!['['] {
                    assert(t.take(1)[0] == '[');
                }
            }
        }
    }
    k < v.len() && (v[k] == '{' || v[k] == '[')
}

impl JsonParser {
    /// Parse `input` as JSON, giving its value or the parser's error.
    pub fn parse(&self, input: &str) -> (r: Result<JsonValue, String>)
        ensures
            value_result(r) == kind_parse(ParserKind::Json, input@),
            r matches Ok(v) ==> wf_json(v@),
    {
        parse_with(ParserKind::Json, input)
    }

    /// Whether this parser can likely handle `input`: it opens an object or
    /// array, and parses as JSON.
    pub fn can_parse(&self, input: &str) -> (r: bool)
        ensures
            r == (plausible(ParserKind::Json, input@) && parses(ParserKind::Json, input@)),
    {
        opens_json(input) && parses_as_json(input)
    }

    /// The format this parser handles.
    pub fn format_name(&self) -> (r: &'static str)
        ensures
            r@ == kind_name(ParserKind::Json),
    {
        parser_name(ParserKind::Json)
    }

    /// The detected format this parser stands for.
    pub fn format_type(&self) -> (r: DetectedFormat)
        ensures
            r == DetectedFormat::Json,
    {
        DetectedFormat::Json
    }
}

impl TomlParser {
    /// Parse `input` as TOML, giving its value or the parser's error.
    pub fn parse(&self, input: &str) -> (r: Result<JsonValue, String>)
        ensures
            value_result(r) == kind_parse(ParserKind::Toml, input@),
            r matches Ok(v) ==> wf_json(v@),
    {
        parse_with(ParserKind::Toml, input)
    }

    /// Whether this parser can likely handle `input`: it looks like TOML
    /// and parses as TOML.
    pub fn can_parse(&self, input: &str) -> (r: bool)
        ensures
            r == (plausible(ParserKind::Toml, input@) && parses(ParserKind::Toml, input@)),
    {
        FormatDetector::is_likely_toml(input) && parses_as_toml(input)
    }

    /// The format this parser handles.
    pub fn format_name(&self) -> (r: &'static str)
        ensures
            r@ == kind_name(ParserKind::Toml),
    {
        parser_name(ParserKind::Toml)
    }

    /// The detected format this parser stands for.
    pub fn format_type(&self) -> (r: DetectedFormat)
        ensures
            r == DetectedFormat::Toml,
    {
        DetectedFormat::Toml
    }
}

impl YamlParser {
    /// Parse `input` as YAML, giving its value or the parser's error.
    pub fn parse(&self, input: &str) -> (r: Result<JsonValue, String>)
        ensures
            value_result(r) == kind_parse(ParserKind::Yaml, input@),
            r matches Ok(v) ==> wf_json(v@),
    {
        parse_with(ParserKind::Yaml, input)
    }

    /// Whether this parser can likely handle `input`: it looks like YAML
    /// and parses as YAML.
    pub fn can_parse(&self, input: &str) -> (r: bool)
        ensures
            r == (plausible(ParserKind::Yaml, input@) && parses(ParserKind::Yaml, input@)),
    {
        FormatDetector::is_likely_yaml(input) && parses_as_yaml(input)
    }

    /// The format this parser handles.
    pub fn format_name(&self) -> (r: &'static str)
        ensures
            r@ == kind_name(ParserKind::Yaml),
    {
        parser_name(ParserKind::Yaml)
    }

    /// The detected format this parser stands for.
    pub fn format_type(&self) -> (r: DetectedFormat)
        ensures
            r == DetectedFormat::Yaml,
    {
        DetectedFormat::Yaml
    }
}

/// The name of a parser's format.
pub fn parser_name(k: ParserKind) -> (r: &'static str)
    ensures
        r@ == kind_name(k),
{
    match k {
        ParserKind::Json => {
            proof {
                reveal_strlit("JSON");
            }
            "JSON"
        },
        ParserKind::Toml => {
            proof {
                reveal_strlit("TOML");
            }
            "TOML"
        },
        ParserKind::Yaml => {
            proof {
                reveal_strlit("YAML");
            }
            "YAML"
        },
    }
}

/// The parser kind that handles a detected format, if one does.
pub open spec fn kind_for(f: DetectedFormat) -> Option<ParserKind> {
    match f {
        DetectedFormat::Json | DetectedFormat::JsonArray => Some(ParserKind::Json),
        DetectedFormat::Toml => Some(ParserKind::Toml),
        DetectedFormat::Yaml => Some(ParserKind::Yaml),
        _ => None,
    }
}

/// Index of the first of `kinds` at or after `k` that handles `f`.
pub open spec fn find_kind(kinds: Seq<ParserKind>, f: DetectedFormat, k: int) -> Option<int>
    decreases kinds.len() - k,
{
    if k < 0 || k >= kinds.len() {
        None
    } else if kind_for(f) == Some(kinds[k]) {
        Some(k)
    } else {
        find_kind(kinds, f, k + 1)
    }
}

/// The parser the detector's candidates `cands`, from `i` on, choose: the
/// first candidate above one half whose parser parses the document.
pub open spec fn detected_choice(
    kinds: Seq<ParserKind>,
    cands: Seq<(DetectedFormat, u32)>,
    ok: Seq<bool>,
    i: int,
) -> Option<int>
    decreases cands.len() - i,
{
    if i < 0 || i >= cands.len() {
        None
    } else {
        match find_kind(kinds, cands[i].0, 0) {
            Some(k) => if cands[i].1 > 50 && ok[k] {
                Some(k)
            } else {
                detected_choice(kinds, cands, ok, i + 1)
            },
            None => detected_choice(kinds, cands, ok, i + 1),
        }
    }
}

/// The first parser, from `k` on, for which `input` is plausible and that
/// parses it.
pub open spec fn fallback_choice(kinds: Seq<ParserKind>, input: Seq<char>, ok: Seq<bool>, k: int) -> Option<int>
    decreases kinds.len() - k,
{
    if k < 0 || k >= kinds.len() {
        None
    } else if plausible(kinds[k], input) && ok[k] {
        Some(k)
    } else {
        fallback_choice(kinds, input, ok, k + 1)
    }
}

/// The parser whose value `parse_document` gives for `input`, when the
/// registered parsers are `kinds` and `ok[k]` says whether parser `k`
/// parses `input`.
pub open spec fn document_choice(kinds: Seq<ParserKind>, input: Seq<char>, ok: Seq<bool>) -> Option<int> {
    match detected_choice(kinds, detect_spec(input), ok, 0) {
        Some(k) => Some(k),
        None => fallback_choice(kinds, input, ok, 0),
    }
}

/// Which of `parsed` hold a value.
pub open spec fn parsed_ok(parsed: Seq<Option<JsonValue>>) -> Seq<bool> {
    parsed.map_values(|p: Option<JsonValue>| p is Some)
}

/// Registered document parsers, tried in registration order.
pub struct ParserRegistry {
    pub parsers: Vec<ParserKind>,
}

impl ParserRegistry {
    /// A registry of the JSON, TOML and YAML parsers, in that order.
    pub fn new() -> (r: ParserRegistry)
        ensures
            r.parsers@ == seq![ParserKind::Json, ParserKind::Toml, ParserKind::Yaml],
    {
        let mut registry = ParserRegistry { parsers: Vec::new() };
        registry.register(ParserKind::Json);
        registry.register(ParserKind::Toml);
        registry.register(ParserKind::Yaml);
        registry
    }

    /// Register a parser after those already registered.
    pub fn register(&mut self, parser: ParserKind)
        ensures
            final(self).parsers@ == old(self).parsers@.push(parser),
    {
        self.parsers.push(parser);
    }

    /// The names of the registered parsers' formats, in order.
    pub fn get_supported_formats(&self) -> (r: Vec<&'static str>)
        ensures
            r@.len() == self.parsers@.len(),
            forall|k: int| 0 <= k < r@.len() ==> (#[trigger] r@[k])@ == kind_name(self.parsers@[k]),
    {
        let mut r: Vec<&'static str> = Vec::new();
        let mut k: usize = 0;
        while k < self.parsers.len()
            invariant
                k <= self.parsers.len(),
                r@.len() == k,
                forall|j: int| 0 <= j < k ==> (#[trigger] r@[j])@ == kind_name(self.parsers@[j]),
            decreases self.parsers.len() - k,
        {
            r.push(parser_name(self.parsers[k]));
            k = k + 1;
        }
        r
    }

    /// The first registered parser that handles `format`.
    pub fn find_parser_for_format(&self, format: DetectedFormat) -> (r: Option<usize>)
        ensures
            match r {
                Some(k) => find_kind(self.parsers@, format, 0) == Some(k as int),
                None => find_kind(self.parsers@, format, 0) is None,
            },
    {
        let mut k: usize = 0;
        while k < self.parsers.len()
            invariant
                k <= self.parsers.len(),
                find_kind(self.parsers@, format, 0) == find_kind(self.parsers@, format, k as int),
            decreases self.parsers.len() - k,
        {
            let handles = match format {
                DetectedFormat::Json | DetectedFormat::JsonArray => self.parsers[k] == ParserKind::Json,
                DetectedFormat::Toml => self.parsers[k] == ParserKind::Toml,
                DetectedFormat::Yaml => self.parsers[k] == ParserKind::Yaml,
                _ => false,
            };
            if handles {
                return Some(k);
            }
            k = k + 1;
        }
        None
    }

    /// Whether `input` is plausibly the format of parser `k`.
    fn plausible_for(&self, k: usize, input: &str) -> (r: bool)
        requires
            k < self.parsers.len(),
        ensures
            r == plausible(self.parsers@[k as int], input@),
    {
        match self.parsers[k] {
            ParserKind::Json => opens_json(input),
            ParserKind::Toml => FormatDetector::is_likely_toml(input),
            ParserKind::Yaml => FormatDetector::is_likely_yaml(input),
        }
    }

    /// The parser the detector's candidates choose, as `detected_choice`.
    fn detected_index(&self, cands: &Vec<(DetectedFormat, u32)>, parsed: &Vec<Option<JsonValue>>) -> (r: Option<usize>)
        requires
            parsed.len() == self.parsers.len(),
        ensures
            match detected_choice(self.parsers@, cands@, parsed_ok(parsed@), 0) {
                Some(k) => r == Some(k as usize) && k < parsed.len(),
                None => r is None,
            },
    {
        let ghost ok = parsed_ok(parsed@);
        let mut i: usize = 0;
        while i < cands.len()
            invariant
                i <= cands.len(),
                parsed.len() == self.parsers.len(),
                ok == parsed_ok(parsed@),
                detected_choice(self.parsers@, cands@, ok, 0) == detected_choice(
                    self.parsers@,
                    cands@,
                    ok,
                    i as int,
                ),
            decreases cands.len() - i,
        {
            let (format, confidence) = cands[i];
            match self.find_parser_for_format(format) {
                Some(k) => {
                    proof {
                        lemma_find_kind(self.parsers@, format, 0);
                    }
                    if confidence > 50 && parsed[k].is_some() {
                        return Some(k);
                    }
                },
                None => {},
            }
            i = i + 1;
        }
        None
    }

    /// The parser the fallback chooses, as `fallback_choice`.
    fn fallback_index(&self, input: &str, parsed: &Vec<Option<JsonValue>>) -> (r: Option<usize>)
        requires
            parsed.len() == self.parsers.len(),
        ensures
            match fallback_choice(self.parsers@, input@, parsed_ok(parsed@), 0) {
                Some(k) => r == Some(k as usize) && k < parsed.len(),
                None => r is None,
            },
    {
        let ghost ok = parsed_ok(parsed@);
        let mut k: usize = 0;
        while k < self.parsers.len()
            invariant
                k <= self.parsers.len(),
                parsed.len() == self.parsers.len(),
                ok == parsed_ok(parsed@),
                fallback_choice(self.parsers@, input@, ok, 0) == fallback_choice(
                    self.parsers@,
                    input@,
                    ok,
                    k as int,
                ),
            decreases self.parsers.len() - k,
        {
            if self.plausible_for(k, input) && parsed[k].is_some() {
                return Some(k);
            }
            k = k + 1;
        }
        None
    }

    /// Parse a document with the registered parsers: the detector's
    /// candidates above one half first, then every parser for which the
    /// document is plausible; the first that parses it gives its value and
    /// its format's name. An error when no parser takes the document. The
    /// detector reads the first 100 bytes of `input`, which must not split
    /// a character.
    pub fn parse_document(&self, input: &str) -> (r: Result<(JsonValue, &'static str), String>)
        requires
            is_byte_boundary(input@, 100),
        ensures
            match document_choice(self.parsers@, input@, parse_oks(self.parsers@, input@)) {
                Some(k) => r matches Ok((v, name)) && kind_parse(self.parsers@[k], input@) == Ok::<
                    JVal,
                    Seq<char>,
                >(v@) && name@ == kind_name(self.parsers@[k]),
                None => r matches Err(m) && m@ == "No parser could handle the input"@,
            },
            r matches Ok((v, _)) ==> wf_json(v@),
    {
        let mut parsed: Vec<Option<JsonValue>> = Vec::new();
        let mut k: usize = 0;
        while k < self.parsers.len()
            invariant
                k <= self.parsers.len(),
                parsed.len() == k,
                forall|i: int|
                    0 <= i < k ==> match kind_parse(self.parsers@[i], input@) {
                        Ok(v) => #[trigger] parsed@[i] matches Some(pv) && pv@ == v && wf_json(v),
                        Err(_) => parsed@[i] is None,
                    },
            decreases self.parsers.len() - k,
        {
            let outcome = parse_with(self.parsers[k], input);
            match outcome {
                Ok(v) => parsed.push(Some(v)),
                Err(_) => parsed.push(None),
            }
            k = k + 1;
        }
        proof {
            assert(parsed_ok(parsed@) =~= parse_oks(self.parsers@, input@)) by {
                assert forall|i: int| 0 <= i < parsed.len() implies parsed_ok(parsed@)[i] == parse_oks(self.parsers@, input@)[i] by {
                    assert(parsed@[i] is Some <==> kind_parse(self.parsers@[i], input@) is Ok);
                }
            }
        }
        let ghost ps = parsed@;
        let r = self.choose_document(input, parsed);
        proof {
            lemma_choice_parses(self.parsers@, input@, parse_oks(self.parsers@, input@));
            match document_choice(self.parsers@, input@, parse_oks(self.parsers@, input@)) {
                Some(k) => {
                    assert(parse_oks(self.parsers@, input@)[k]);
                    assert(kind_parse(self.parsers@[k], input@) is Ok);
                },
                None => {},
            }
        }
        r
    }

    /// Choose a document's parser: `parsed[k]` is the value registered
    /// parser `k` read from `input`, or `None` when it failed. Gives the
    /// value of the chosen parser with its format's name, or an error when
    /// no parser takes the document. The detector reads the first 100
    /// bytes of `input`, which must not split a character.
    pub fn choose_document(&self, input: &str, parsed: Vec<Option<JsonValue>>) -> (r: Result<
        (JsonValue, &'static str),
        String,
    >)
        requires
            parsed.len() == self.parsers.len(),
            is_byte_boundary(input@, 100),
        ensures
            match document_choice(self.parsers@, input@, parsed_ok(parsed@)) {
                Some(k) => r matches Ok((v, name)) && parsed@[k] matches Some(pv) && pv@ == v@ && name@
                    == kind_name(self.parsers@[k]),
                None => r matches Err(m) && m@ == "No parser could handle the input"@,
            },
    {
        let ghost ok = parsed_ok(parsed@);
        let cands = FormatDetector::detect(input);
        let choice = match self.detected_index(&cands, &parsed) {
            Some(k) => Some(k),
            None => self.fallback_index(input, &parsed),
        };
        proof {
            lemma_choice_parses(self.parsers@, input@, ok);
            match document_choice(self.parsers@, input@, ok) {
                Some(k) => {
                    assert(choice == Some(k as usize));
                },
                None => {
                    assert(choice is None);
                },
            }
        }
        match choice {
            Some(k) => {
                proof {
                    assert(ok[k as int] == parsed@[k as int] is Some);
                }
                match &parsed[k] {
                    Some(v) => Ok((v.copy(), parser_name(self.parsers[k]))),
                    None => Err(String::new()),
                }
            },
            None => {
                let m = String::from_str("No parser could handle the input");
                proof {
                    reveal_strlit("No parser could handle the input");
                }
                Err(m)
            },
        }
    }
}

/// The index `find_kind` gives lies within the list.
pub proof fn lemma_find_kind(kinds: Seq<ParserKind>, f: DetectedFormat, k: int)
    ensures
        find_kind(kinds, f, k) matches Some(i) ==> 0 <= k <= i < kinds.len(),
    decreases kinds.len() - k,
{
    if 0 <= k < kinds.len() && kind_for(f) != Some(kinds[k]) {
        lemma_find_kind(kinds, f, k + 1);
    }
}

/// Where both the detector's candidates and the fallback choose, the
/// chosen parser parses the document.
pub proof fn lemma_choice_parses(kinds: Seq<ParserKind>, input: Seq<char>, ok: Seq<bool>)
    requires
        ok.len() == kinds.len(),
    ensures
        document_choice(kinds, input, ok) matches Some(k) ==> 0 <= k < kinds.len() && ok[k],
{
    lemma_detected_choice(kinds, detect_spec(input), ok, 0);
    lemma_fallback_choice(kinds, input, ok, 0);
}

proof fn lemma_detected_choice(kinds: Seq<ParserKind>, cands: Seq<(DetectedFormat, u32)>, ok: Seq<bool>, i: int)
    requires
        ok.len() == kinds.len(),
    ensures
        detected_choice(kinds, cands, ok, i) matches Some(k) ==> 0 <= k < kinds.len() && ok[k],
    decreases cands.len() - i,
{
    if 0 <= i < cands.len() {
        lemma_find_kind(kinds, cands[i].0, 0);
        lemma_detected_choice(kinds, cands, ok, i + 1);
    }
}

proof fn lemma_fallback_choice(kinds: Seq<ParserKind>, input: Seq<char>, ok: Seq<bool>, k: int)
    requires
        ok.len() == kinds.len(),
    ensures
        fallback_choice(kinds, input, ok, k) matches Some(j) ==> 0 <= j < kinds.len() && ok[j],
    decreases kinds.len() - k,
{
    if 0 <= k < kinds.len() {
        lemma_fallback_choice(kinds, input, ok, k + 1);
    }
}

impl Default for ParserRegistry {
    /// The registry that `new` builds.
    fn default() -> (r: ParserRegistry)
        ensures
            r.parsers@ == seq![ParserKind::Json, ParserKind::Toml, ParserKind::Yaml],
    {
        ParserRegistry::new()
    }
}

} // verus!
