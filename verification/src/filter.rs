//! Filter expressions, field paths and templates, and their evaluation over
//! a record's view.

use vstd::prelude::*;
use crate::json_text::{compact, pretty, to_compact, to_pretty};
use crate::number::{num_order, number_from_chars, number_of, compare_numbers, Num};
use crate::text::{chars_of, contains, contains_seq, ends_with, ends_with_seq, starts_with, starts_with_seq};
use crate::value::{JVal, JsonValue, lemma_view_arr, lemma_view_obj, wf_json};

verus! {

/// A comparison operator of a filter.
#[derive(Debug, Clone, Copy, PartialEq, Eq, Structural)]
pub enum ComparisonOp {
    Equal,
    NotEqual,
    LessThan,
    LessThanOrEqual,
    GreaterThan,
    GreaterThanOrEqual,
    Contains,
    StartsWith,
    EndsWith,
    /// `~` in the operator table: substring match on the value's text.
    Matches,
    /// `~=`: a pattern match, read as a substring match.
    Regex,
}

/// A path of keys and array indexes into a value.
#[derive(Debug, Clone, PartialEq)]
pub struct FieldPath {
    pub parts: Vec<String>,
}

/// The parts of a path.
pub open spec fn parts_view(parts: Seq<String>) -> Seq<Seq<char>> {
    parts.map_values(|p: String| p@)
}

impl View for FieldPath {
    type V = Seq<Seq<char>>;

    open spec fn view(&self) -> Seq<Seq<char>> {
        parts_view(self.parts@)
    }
}

/// Index of the first key equal to `key`.
pub open spec fn first_key(keys: Seq<Seq<char>>, key: Seq<char>, from: int) -> Option<int>
    decreases keys.len() - from,
{
    if from < 0 || from >= keys.len() {
        None
    } else if keys[from] == key {
        Some(from)
    } else {
        first_key(keys, key, from + 1)
    }
}

pub proof fn lemma_first_key(keys: Seq<Seq<char>>, key: Seq<char>, from: int)
    requires
        0 <= from,
    ensures
        match first_key(keys, key, from) {
            Some(i) => from <= i < keys.len() && keys[i] == key,
            None => forall|k: int| from <= k < keys.len() ==> keys[k] != key,
        },
    decreases keys.len() - from,
{
    if from < keys.len() && keys[from] != key {
        lemma_first_key(keys, key, from + 1);
    }
}

/// The value of an array index written as `part`: an optional `+` and
/// decimal digits whose value fits in `usize`.
pub open spec fn index_of(part: Seq<char>) -> Option<nat> {
    let digits = index_digits(part);
    if digits.len() > 0 && all_digits(digits) && decimal_value(digits) <= usize::MAX {
        Some(decimal_value(digits))
    } else {
        None
    }
}

/// `part` without a leading `+`.
pub open spec fn index_digits(part: Seq<char>) -> Seq<char> {
    if part.len() > 0 && part[0] == '+' {
        part.drop_first()
    } else {
        part
    }
}

/// Every character of `s` is a decimal digit.
pub open spec fn all_digits(s: Seq<char>) -> bool {
    forall|k: int| 0 <= k < s.len() ==> crate::number::is_digit(#[trigger] s[k])
}

/// The value of a string of decimal digits.
pub open spec fn decimal_value(ds: Seq<char>) -> nat
    decreases ds.len(),
{
    if ds.len() == 0 {
        0
    } else {
        (decimal_value(ds.drop_last()) * 10 + crate::number::digit_value(ds.last())) as nat
    }
}

/// One step down a path: an object's member, or an array's item.
pub open spec fn step_into(v: JVal, part: Seq<char>) -> Option<JVal> {
    match v {
        JVal::Obj(keys, values) => match first_key(keys, part, 0) {
            Some(i) => if i < values.len() {
                Some(values[i])
            } else {
                None
            },
            None => None,
        },
        JVal::Arr(items) => match index_of(part) {
            Some(n) => if n < items.len() {
                Some(items[n as int])
            } else {
                None
            },
            None => None,
        },
        _ => None,
    }
}

/// The value at `path` in `v`, if every step finds one.
pub open spec fn lookup(path: Seq<Seq<char>>, v: JVal) -> Option<JVal>
    decreases path.len(),
{
    if path.len() == 0 {
        Some(v)
    } else {
        match step_into(v, path[0]) {
            Some(c) => lookup(path.drop_first(), c),
            None => None,
        }
    }
}

/// A value inside a well-formed value is well-formed.
pub proof fn lemma_lookup_wf(path: Seq<Seq<char>>, v: JVal)
    requires
        wf_json(v),
    ensures
        lookup(path, v) matches Some(c) ==> wf_json(c),
    decreases path.len(),
{
    if path.len() > 0 {
        match step_into(v, path[0]) {
            Some(c) => {
                assert(wf_json(c)) by {
                match v {
                    JVal::Obj(keys, values) => {
                        lemma_first_key(keys, path[0], 0);
                        let i = first_key(keys, path[0], 0)->Some_0;
                        if 0 <= i < values.len() {
                            assert(wf_json(values[i]));
                        }
                    },
                    JVal::Arr(items) => {
                        let n = index_of(path[0])->Some_0;
                        if n < items.len() {
                            assert(wf_json(items[n as int]));
                        }
                    },
                    _ => {},
                }
                }
                lemma_lookup_wf(path.drop_first(), c);
            },
            None => {},
        }
    }
}

#[verifier::loop_isolation(false)]
pub fn parse_index(part: &str) -> (r: Option<usize>)
    ensures
        match r {
            Some(n) => index_of(part@) == Some(n as nat),
            None => index_of(part@) is None,
        },
{
    let v = chars_of(part);
    let start: usize = if v.len() > 0 && v[0] == '+' {
        1
    } else {
        0
    };
    let ghost digits = index_digits(part@);
    proof {
        assert(digits == v@.skip(start as int));
    }
    if start == v.len() {
        return None;
    }
    let mut n: usize = 0;
    let mut i: usize = start;
    while i < v.len()
        invariant
            start <= i <= v.len(),
            digits == v@.skip(start as int),
            n == decimal_value(digits.take(i - start)),
            forall|k: int| 0 <= k < i - start ==> crate::number::is_digit(#[trigger] digits[k]),
        decreases v.len() - i,
    {
        let c = v[i];
        if !('0' <= c && c <= '9') {
            proof {
                assert(!crate::number::is_digit(digits[i - start]));
                assert(!all_digits(digits));
            }
            return None;
        }
        proof {
            assert(digits.take(i - start + 1).drop_last() == digits.take(i - start));
            assert(digits.take(i - start + 1).last() == c);
        }
        let d = (c as u32 - '0' as u32) as usize;
        let m = match n.checked_mul(10) {
            Some(m) => m,
            None => {
                proof {
                    if all_digits(digits) {
                        lemma_decimal_prefix(digits, i - start + 1);
                    }
                }
                return None;
            },
        };
        n = match m.checked_add(d) {
            Some(s) => s,
            None => {
                proof {
                    if all_digits(digits) {
                        lemma_decimal_prefix(digits, i - start + 1);
                    }
                }
                return None;
            },
        };
        i = i + 1;
    }
    proof {
        assert(digits.take(v.len() - start) == digits);
    }
    Some(n)
}

/// A longer digit string has at least the value of its prefix.
proof fn lemma_decimal_prefix(ds: Seq<char>, j: int)
    requires
        0 <= j <= ds.len(),
        forall|k: int| 0 <= k < ds.len() ==> crate::number::is_digit(#[trigger] ds[k]),
    ensures
        decimal_value(ds.take(j)) <= decimal_value(ds),
    decreases ds.len(),
{
    if j < ds.len() {
        assert(ds.drop_last().take(j) == ds.take(j));
        lemma_decimal_prefix(ds.drop_last(), j);
    } else {
        assert(ds.take(j) == ds);
    }
}

impl FieldPath {
    pub fn new(parts: Vec<String>) -> (r: FieldPath)
        ensures
            r.parts@ == parts@,
    {
        FieldPath { parts }
    }

    pub fn single(name: String) -> (r: FieldPath)
        ensures
            r@ == seq![name@],
    {
        let mut parts = Vec::new();
        parts.push(name);
        let r = FieldPath { parts };
        proof {
            assert(r@ =~= seq![r.parts@[0]@]);
        }
        r
    }

    /// The value at this path in `data`: each part names an object's
    /// member, or an array's item by its decimal index.
    #[verifier::loop_isolation(false)]
    pub fn get_value<'a>(&self, data: &'a JsonValue) -> (r: Option<&'a JsonValue>)
        ensures
            match r {
                Some(v) => lookup(self@, data@) == Some(v@),
                None => lookup(self@, data@) is None,
            },
    {
        let mut current: &JsonValue = data;
        let mut i: usize = 0;
        proof {
            assert(self@.skip(0) == self@);
        }
        while i < self.parts.len()
            invariant
                i <= self.parts.len(),
                lookup(self@, data@) == lookup(self@.skip(i as int), current@),
            decreases self.parts.len() - i,
        {
            let part = &self.parts[i];
            let ghost rest = self@.skip(i as int);
            proof {
                assert(rest[0] == part@);
                assert(rest.drop_first() == self@.skip(i + 1));
            }
            match current {
                JsonValue::Object(keys, values) => {
                    proof {
                        lemma_view_obj(current);
                    }
                    let mut k: usize = 0;
                    while k < keys.len() && !string_eq(&keys[k], part)
                        invariant
                            k <= keys.len(),
                            current@->Obj_0.len() == keys.len(),
                            forall|m: int| 0 <= m < keys.len() ==> #[trigger] current@->Obj_0[m] == keys@[m]@,
                            first_key(current@->Obj_0, part@, 0) == first_key(current@->Obj_0, part@, k as int),
                        decreases keys.len() - k,
                    {
                        k = k + 1;
                    }
                    if k == keys.len() || k >= values.len() {
                        return None;
                    }
                    current = &values[k];
                },
                JsonValue::Array(items) => {
                    proof {
                        lemma_view_arr(current);
                    }
                    match parse_index(part.as_str()) {
                        Some(n) => {
                            if n >= items.len() {
                                return None;
                            }
                            current = &items[n];
                        },
                        None => {
                            return None;
                        },
                    }
                },
                _ => {
                    return None;
                },
            }
            i = i + 1;
        }
        proof {
            assert(self@.skip(i as int).len() == 0);
        }
        Some(current)
    }

    /// The value at this path as text: a string as itself, a number,
    /// boolean or null as its JSON text, an array or object as pretty JSON.
    pub fn extract_field(&self, data: &JsonValue) -> (r: Option<String>)
        requires
            wf_json(data@),
        ensures
            match lookup(self@, data@) {
                Some(v) => (r matches Some(t) && t@ == extracted_text(v)),
                None => r is None,
            },
    {
        match self.get_value(data) {
            None => None,
            Some(v) => {
                proof {
                    lemma_lookup_wf(self@, data@);
                }
                match v {
                    JsonValue::Str(s) => Some(s.clone()),
                    JsonValue::Array(_) | JsonValue::Object(_, _) => Some(to_pretty(v)),
                    _ => Some(to_compact(v)),
                }
            },
        }
    }
}

/// `a` and `b` hold the same characters.
pub fn string_eq(a: &String, b: &String) -> (r: bool)
    ensures
        r == (a@ == b@),
{
    *a == *b
}

/// What `extract_field` gives for a value.
pub open spec fn extracted_text(v: JVal) -> Seq<char> {
    match v {
        JVal::Str(s) => s,
        JVal::Arr(_) => pretty(v),
        JVal::Obj(_, _) => pretty(v),
        _ => compact(v),
    }
}


/// A literal of a filter: a string, a number as its text, a boolean or
/// null.
#[derive(Debug, Clone, PartialEq)]
pub enum FilterValue {
    String(String),
    Number(String),
    Boolean(bool),
    Null,
}

/// The mathematical filter literal.
pub enum FVal {
    Str(Seq<char>),
    Num(Seq<char>),
    Bool(bool),
    Null,
}

impl View for FilterValue {
    type V = FVal;

    open spec fn view(&self) -> FVal {
        match self {
            FilterValue::String(s) => FVal::Str(s@),
            FilterValue::Number(t) => FVal::Num(t@),
            FilterValue::Boolean(b) => FVal::Bool(*b),
            FilterValue::Null => FVal::Null,
        }
    }
}

/// A data value as a filter literal: arrays and objects become their
/// compact JSON text.
pub open spec fn literal_of(v: JVal) -> FVal {
    match v {
        JVal::Str(s) => FVal::Str(s),
        JVal::Num(t) => FVal::Num(t),
        JVal::Bool(b) => FVal::Bool(b),
        JVal::Null => FVal::Null,
        _ => FVal::Str(compact(v)),
    }
}

impl FilterValue {
    pub fn from_json(value: &JsonValue) -> (r: FilterValue)
        requires
            wf_json(value@),
        ensures
            r@ == literal_of(value@),
    {
        match value {
            JsonValue::Str(s) => FilterValue::String(s.clone()),
            JsonValue::Number(t) => FilterValue::Number(t.clone()),
            JsonValue::Bool(b) => FilterValue::Boolean(*b),
            JsonValue::Null => FilterValue::Null,
            _ => FilterValue::String(to_compact(value)),
        }
    }
}

/// Whether two number texts write equal numbers.
pub open spec fn numbers_equal(a: Seq<char>, b: Seq<char>) -> bool {
    match (number_of(a), number_of(b)) {
        (Some(x), Some(y)) => num_order(x, y) == Some(0int),
        _ => false,
    }
}

/// Equality of filter literals: same-kind values by value, and a string
/// equals a number when it writes an equal number.
pub open spec fn literals_equal(a: FVal, b: FVal) -> bool {
    match (a, b) {
        (FVal::Str(x), FVal::Str(y)) => x == y,
        (FVal::Num(x), FVal::Num(y)) => numbers_equal(x, y),
        (FVal::Bool(x), FVal::Bool(y)) => x == y,
        (FVal::Null, FVal::Null) => true,
        (FVal::Str(s), FVal::Num(n)) => numbers_equal(s, n),
        (FVal::Num(n), FVal::Str(s)) => numbers_equal(n, s),
        _ => false,
    }
}

/// The number a data value holds or writes, for ordering comparisons.
pub open spec fn data_number(v: JVal) -> Option<Num> {
    match v {
        JVal::Num(t) => number_of(t),
        JVal::Str(s) => number_of(s),
        _ => None,
    }
}

/// The number a filter literal holds or writes.
pub open spec fn literal_number(v: FVal) -> Option<Num> {
    match v {
        FVal::Num(t) => number_of(t),
        FVal::Str(s) => number_of(s),
        _ => None,
    }
}

/// Whether an order `c` (-1, 0 or 1) satisfies an ordering operator.
pub open spec fn order_holds(op: ComparisonOp, c: int) -> bool {
    match op {
        ComparisonOp::LessThan => c < 0,
        ComparisonOp::LessThanOrEqual => c <= 0,
        ComparisonOp::GreaterThan => c > 0,
        ComparisonOp::GreaterThanOrEqual => c >= 0,
        _ => false,
    }
}

/// The text a data value shows to a substring match.
pub open spec fn value_text(v: JVal) -> Seq<char> {
    match v {
        JVal::Str(s) => s,
        _ => compact(v),
    }
}

/// Whether the data value `dv` satisfies `op` against the literal `fv`.
pub open spec fn comparison_holds(dv: JVal, op: ComparisonOp, fv: FVal) -> bool {
    match op {
        ComparisonOp::Equal => literals_equal(literal_of(dv), fv),
        ComparisonOp::NotEqual => !literals_equal(literal_of(dv), fv),
        ComparisonOp::LessThan | ComparisonOp::LessThanOrEqual | ComparisonOp::GreaterThan
        | ComparisonOp::GreaterThanOrEqual => match (data_number(dv), literal_number(fv)) {
            (Some(a), Some(b)) => match num_order(a, b) {
                Some(c) => order_holds(op, c),
                None => false,
            },
            _ => false,
        },
        ComparisonOp::Contains => match (dv, fv) {
            (JVal::Str(d), FVal::Str(p)) => contains_seq(d, p),
            _ => false,
        },
        ComparisonOp::StartsWith => match (dv, fv) {
            (JVal::Str(d), FVal::Str(p)) => starts_with_seq(d, p),
            _ => false,
        },
        ComparisonOp::EndsWith => match (dv, fv) {
            (JVal::Str(d), FVal::Str(p)) => ends_with_seq(d, p),
            _ => false,
        },
        ComparisonOp::Matches | ComparisonOp::Regex => match fv {
            FVal::Str(p) => contains_seq(value_text(dv), p),
            _ => false,
        },
    }
}

/// Whether a string reads as true: the words false, f, 0, no and off (in
/// any case) are false, the words true, t, 1, yes and on are true, and any
/// other non-empty string is true.
pub open spec fn string_truthy(s: Seq<char>) -> bool {
    let l = crate::text::lowercase(s);
    if l == seq!['f', 'a', 'l', 's', 'e'] || l == seq!['f'] || l == seq!['0'] || l == seq!['n', 'o']
        || l == seq!['o', 'f', 'f'] {
        false
    } else if l == seq!['t', 'r', 'u', 'e'] || l == seq!['t'] || l == seq!['1'] || l == seq![
        'y',
        'e',
        's',
    ] || l == seq!['o', 'n'] {
        true
    } else {
        s.len() > 0
    }
}

/// Whether a looked-up value is truthy: a missing value and null are not,
/// booleans are themselves, numbers are truthy unless zero, arrays and
/// objects unless empty.
pub open spec fn truthy(v: Option<JVal>) -> bool {
    match v {
        None => false,
        Some(JVal::Null) => false,
        Some(JVal::Bool(b)) => b,
        Some(JVal::Str(s)) => string_truthy(s),
        Some(JVal::Num(t)) => match number_of(t) {
            Some(Num::Fin(_, d, _)) => d.len() > 0,
            Some(_) => true,
            None => false,
        },
        Some(JVal::Arr(items)) => items.len() > 0,
        Some(JVal::Obj(keys, _)) => keys.len() > 0,
    }
}

/// The words `false`, `f`, `0`, `no` and `off`, in any case, are falsy
/// strings, and `true`, `t`, `1`, `yes` and `on` truthy ones; the empty
/// string is falsy and any other string truthy. A string's truthiness
/// depends only on its lower-case form.
pub proof fn lemma_string_truthiness(s: Seq<char>, t: Seq<char>)
    ensures
        crate::text::lowercase(s) == seq!['f', 'a', 'l', 's', 'e'] ==> !truthy(Some(JVal::Str(s))),
        crate::text::lowercase(s) == seq!['f'] ==> !truthy(Some(JVal::Str(s))),
        crate::text::lowercase(s) == seq!['0'] ==> !truthy(Some(JVal::Str(s))),
        crate::text::lowercase(s) == seq!['n', 'o'] ==> !truthy(Some(JVal::Str(s))),
        crate::text::lowercase(s) == seq!['o', 'f', 'f'] ==> !truthy(Some(JVal::Str(s))),
        crate::text::lowercase(s) == seq!['t', 'r', 'u', 'e'] ==> truthy(Some(JVal::Str(s))),
        crate::text::lowercase(s) == seq!['t'] ==> truthy(Some(JVal::Str(s))),
        crate::text::lowercase(s) == seq!['1'] ==> truthy(Some(JVal::Str(s))),
        crate::text::lowercase(s) == seq!['y', 'e', 's'] ==> truthy(Some(JVal::Str(s))),
        crate::text::lowercase(s) == seq!['o', 'n'] ==> truthy(Some(JVal::Str(s))),
        s.len() == 0 && crate::text::lowercase(s).len() == 0 ==> !truthy(Some(JVal::Str(s))),
        crate::text::lowercase(s) == crate::text::lowercase(t) && s.len() > 0 && t.len() > 0
            ==> truthy(Some(JVal::Str(s))) == truthy(Some(JVal::Str(t))),
{
    assert(seq!['t'][0] != seq!['f'][0] && seq!['t'][0] != seq!['0'][0]);
    assert(seq!['1'][0] != seq!['f'][0] && seq!['1'][0] != seq!['0'][0]);
    assert(seq!['t'] != seq!['f'] && seq!['t'] != seq!['0']);
    assert(seq!['1'] != seq!['f'] && seq!['1'] != seq!['0']);
}

/// Whether a pattern matches text: a substring match, ignoring case when
/// the flags hold `i`.
pub open spec fn pattern_holds(text: Seq<char>, pattern: Seq<char>, flags: Option<Seq<char>>) -> bool {
    if flags matches Some(f) && f.contains('i') {
        contains_seq(crate::text::lowercase(text), crate::text::lowercase(pattern))
    } else {
        contains_seq(text, pattern)
    }
}

/// A filter expression.
#[derive(Debug, PartialEq)]
pub enum FilterExpr {
    And(Box<FilterExpr>, Box<FilterExpr>),
    Or(Box<FilterExpr>, Box<FilterExpr>),
    Not(Box<FilterExpr>),
    Comparison { field: FieldPath, op: ComparisonOp, value: FilterValue },
    FieldTruthy(FieldPath),
    Regex { field: FieldPath, pattern: String, flags: Option<String> },
    In { field: FieldPath, values: Vec<FilterValue> },
}

/// The mathematical filter expression.
pub enum FExpr {
    And(Box<FExpr>, Box<FExpr>),
    Or(Box<FExpr>, Box<FExpr>),
    Not(Box<FExpr>),
    Compare(Seq<Seq<char>>, ComparisonOp, FVal),
    Truthy(Seq<Seq<char>>),
    Pattern(Seq<Seq<char>>, Seq<char>, Option<Seq<char>>),
    In(Seq<Seq<char>>, Seq<FVal>),
}

/// The views of filter literals.
pub open spec fn literals_view(values: Seq<FilterValue>) -> Seq<FVal> {
    values.map_values(|v: FilterValue| v@)
}

impl View for FilterExpr {
    type V = FExpr;

    open spec fn view(&self) -> FExpr
        decreases self,
    {
        match self {
            FilterExpr::And(l, r) => FExpr::And(Box::new((**l).view()), Box::new((**r).view())),
            FilterExpr::Or(l, r) => FExpr::Or(Box::new((**l).view()), Box::new((**r).view())),
            FilterExpr::Not(x) => FExpr::Not(Box::new((**x).view())),
            FilterExpr::Comparison { field, op, value } => FExpr::Compare(field@, *op, value@),
            FilterExpr::FieldTruthy(field) => FExpr::Truthy(field@),
            FilterExpr::Regex { field, pattern, flags } => FExpr::Pattern(
                field@,
                pattern@,
                match flags {
                    Some(f) => Some(f@),
                    None => None,
                },
            ),
            FilterExpr::In { field, values } => FExpr::In(field@, literals_view(values@)),
        }
    }
}

/// Whether `e` holds of `data`.
pub open spec fn eval(e: FExpr, data: JVal) -> bool
    decreases e,
{
    match e {
        FExpr::And(l, r) => eval(*l, data) && eval(*r, data),
        FExpr::Or(l, r) => eval(*l, data) || eval(*r, data),
        FExpr::Not(x) => !eval(*x, data),
        FExpr::Compare(path, op, fv) => match lookup(path, data) {
            Some(dv) => comparison_holds(dv, op, fv),
            None => false,
        },
        FExpr::Truthy(path) => truthy(lookup(path, data)),
        FExpr::Pattern(path, pattern, flags) => match lookup(path, data) {
            Some(JVal::Str(t)) => pattern_holds(t, pattern, flags),
            _ => false,
        },
        FExpr::In(path, values) => match lookup(path, data) {
            Some(dv) => exists|i: int|
                0 <= i < values.len() && literals_equal(literal_of(dv), #[trigger] values[i]),
            None => false,
        },
    }
}

/// The text a template shows for a value: a string as itself, anything
/// else as compact JSON.
pub open spec fn shown(v: JVal) -> Seq<char> {
    match v {
        JVal::Str(s) => s,
        _ => compact(v),
    }
}

/// The text of a value, as templates show it.
pub fn format_value(value: &JsonValue) -> (r: String)
    requires
        wf_json(value@),
    ensures
        r@ == shown(value@),
{
    match value {
        JsonValue::Str(s) => s.clone(),
        _ => to_compact(value),
    }
}

fn number_of_text(t: &str) -> (r: Option<crate::number::Number>)
    ensures
        match r {
            Some(n) => number_of(t@) == Some(n@),
            None => number_of(t@) is None,
        },
{
    let v = chars_of(t);
    number_from_chars(&v)
}

fn numbers_equal_exec(a: &str, b: &str) -> (r: bool)
    ensures
        r == numbers_equal(a@, b@),
{
    match (number_of_text(a), number_of_text(b)) {
        (Some(x), Some(y)) => match compare_numbers(&x, &y) {
            Some(c) => c == 0,
            None => false,
        },
        _ => false,
    }
}

fn data_number_exec(v: &JsonValue) -> (r: Option<crate::number::Number>)
    ensures
        match r {
            Some(n) => data_number(v@) == Some(n@),
            None => data_number(v@) is None,
        },
{
    match v {
        JsonValue::Number(t) => number_of_text(t.as_str()),
        JsonValue::Str(s) => number_of_text(s.as_str()),
        _ => None,
    }
}

fn literal_number_exec(v: &FilterValue) -> (r: Option<crate::number::Number>)
    ensures
        match r {
            Some(n) => literal_number(v@) == Some(n@),
            None => literal_number(v@) is None,
        },
{
    match v {
        FilterValue::Number(t) => number_of_text(t.as_str()),
        FilterValue::String(s) => number_of_text(s.as_str()),
        _ => None,
    }
}

fn text_contains(hay: &str, needle: &str) -> (r: bool)
    ensures
        r == contains_seq(hay@, needle@),
{
    let h = chars_of(hay);
    let n = chars_of(needle);
    contains(&h, &n)
}

/// The filter engine: evaluates filter expressions against data.
pub struct FilterEngine;

impl FilterEngine {
    /// Whether `expr` holds of `data`.
    pub fn evaluate(expr: &FilterExpr, data: &JsonValue) -> (r: bool)
        requires
            wf_json(data@),
        ensures
            r == eval(expr@, data@),
        decreases expr,
    {
        match expr {
            FilterExpr::And(left, right) => Self::evaluate(left, data) && Self::evaluate(right, data),
            FilterExpr::Or(left, right) => Self::evaluate(left, data) || Self::evaluate(right, data),
            FilterExpr::Not(inner) => !Self::evaluate(inner, data),
            FilterExpr::Comparison { field, op, value } => Self::evaluate_comparison(
                field,
                *op,
                value,
                data,
            ),
            FilterExpr::FieldTruthy(field) => Self::evaluate_field_truthiness(field, data),
            FilterExpr::Regex { field, pattern, flags } => Self::evaluate_regex(
                field,
                pattern.as_str(),
                flags,
                data,
            ),
            FilterExpr::In { field, values } => Self::evaluate_in(field, values, data),
        }
    }

    /// Whether the value at `field` is truthy.
    pub fn evaluate_field_truthiness(field: &FieldPath, data: &JsonValue) -> (r: bool)
        ensures
            r == truthy(lookup(field@, data@)),
    {
        match field.get_value(data) {
            None => false,
            Some(value) => match value {
                JsonValue::Null => false,
                JsonValue::Bool(b) => *b,
                JsonValue::Str(s) => string_truthy_exec(s.as_str()),
                JsonValue::Number(t) => match number_of_text(t.as_str()) {
                    Some(crate::number::Number::Fin(_, d, _)) => d.len() > 0,
                    Some(_) => true,
                    None => false,
                },
                JsonValue::Array(items) => items.len() > 0,
                JsonValue::Object(keys, _) => {
                    proof {
                        lemma_view_obj(value);
                    }
                    keys.len() > 0
                },
            },
        }
    }

    fn evaluate_comparison(
        field: &FieldPath,
        op: ComparisonOp,
        filter_value: &FilterValue,
        data: &JsonValue,
    ) -> (r: bool)
        requires
            wf_json(data@),
        ensures
            r == match lookup(field@, data@) {
                Some(dv) => comparison_holds(dv, op, filter_value@),
                None => false,
            },
    {
        let data_value = match field.get_value(data) {
            Some(v) => v,
            None => {
                return false;
            },
        };
        proof {
            lemma_lookup_wf(field@, data@);
        }
        match op {
            ComparisonOp::Equal => {
                let d = FilterValue::from_json(data_value);
                Self::values_equal(&d, filter_value)
            },
            ComparisonOp::NotEqual => {
                let d = FilterValue::from_json(data_value);
                !Self::values_equal(&d, filter_value)
            },
            ComparisonOp::LessThan | ComparisonOp::LessThanOrEqual | ComparisonOp::GreaterThan
            | ComparisonOp::GreaterThanOrEqual => Self::compare_values(data_value, filter_value, op),
            ComparisonOp::Contains => Self::string_contains(data_value, filter_value),
            ComparisonOp::StartsWith => Self::string_starts_with(data_value, filter_value),
            ComparisonOp::EndsWith => Self::string_ends_with(data_value, filter_value),
            ComparisonOp::Matches | ComparisonOp::Regex => Self::regex_matches(
                data_value,
                filter_value,
            ),
        }
    }

    fn evaluate_regex(
        field: &FieldPath,
        pattern: &str,
        flags: &Option<String>,
        data: &JsonValue,
    ) -> (r: bool)
        ensures
            r == match lookup(field@, data@) {
                Some(JVal::Str(t)) => pattern_holds(
                    t,
                    pattern@,
                    match flags {
                        Some(f) => Some(f@),
                        None => None,
                    },
                ),
                _ => false,
            },
    {
        let data_value = match field.get_value(data) {
            Some(v) => v,
            None => {
                return false;
            },
        };
        let text = match data_value {
            JsonValue::Str(s) => s,
            _ => {
                return false;
            },
        };
        match flags {
            Some(f) => {
                let fv = chars_of(f.as_str());
                if crate::text::has_char(&fv, 'i') {
                    let lt = crate::text::to_lowercase(text.as_str());
                    let lp = crate::text::to_lowercase(pattern);
                    return text_contains(lt.as_str(), lp.as_str());
                }
            },
            None => {},
        }
        text_contains(text.as_str(), pattern)
    }

    fn evaluate_in(field: &FieldPath, values: &Vec<FilterValue>, data: &JsonValue) -> (r: bool)
        requires
            wf_json(data@),
        ensures
            r == match lookup(field@, data@) {
                Some(dv) => exists|i: int|
                    0 <= i < values@.len() && literals_equal(
                        literal_of(dv),
                        #[trigger] literals_view(values@)[i],
                    ),
                None => false,
            },
    {
        let data_value = match field.get_value(data) {
            Some(v) => v,
            None => {
                return false;
            },
        };
        proof {
            lemma_lookup_wf(field@, data@);
        }
        let field_value = FilterValue::from_json(data_value);
        let mut i: usize = 0;
        while i < values.len()
            invariant
                i <= values.len(),
                field_value@ == literal_of(data_value@),
                lookup(field@, data@) == Some(data_value@),
                forall|k: int|
                    0 <= k < i ==> !literals_equal(
                        literal_of(data_value@),
                        #[trigger] literals_view(values@)[k],
                    ),
            decreases values.len() - i,
        {
            if Self::values_equal(&field_value, &values[i]) {
                proof {
                    assert(literals_view(values@)[i as int] == values@[i as int]@);
                }
                return true;
            }
            proof {
                assert(literals_view(values@)[i as int] == values@[i as int]@);
            }
            i = i + 1;
        }
        false
    }

    fn values_equal(a: &FilterValue, b: &FilterValue) -> (r: bool)
        ensures
            r == literals_equal(a@, b@),
    {
        match (a, b) {
            (FilterValue::String(x), FilterValue::String(y)) => string_eq(x, y),
            (FilterValue::Number(x), FilterValue::Number(y)) => numbers_equal_exec(
                x.as_str(),
                y.as_str(),
            ),
            (FilterValue::Boolean(x), FilterValue::Boolean(y)) => *x == *y,
            (FilterValue::Null, FilterValue::Null) => true,
            (FilterValue::String(s), FilterValue::Number(n)) => numbers_equal_exec(
                s.as_str(),
                n.as_str(),
            ),
            (FilterValue::Number(n), FilterValue::String(s)) => numbers_equal_exec(
                n.as_str(),
                s.as_str(),
            ),
            _ => false,
        }
    }

    fn compare_values(data_value: &JsonValue, filter_value: &FilterValue, op: ComparisonOp) -> (r:
        bool)
        ensures
            r == match (data_number(data_value@), literal_number(filter_value@)) {
                (Some(a), Some(b)) => match num_order(a, b) {
                    Some(c) => order_holds(op, c),
                    None => false,
                },
                _ => false,
            },
    {
        match (data_number_exec(data_value), literal_number_exec(filter_value)) {
            (Some(a), Some(b)) => match compare_numbers(&a, &b) {
                Some(c) => match op {
                    ComparisonOp::LessThan => c < 0,
                    ComparisonOp::LessThanOrEqual => c <= 0,
                    ComparisonOp::GreaterThan => c > 0,
                    ComparisonOp::GreaterThanOrEqual => c >= 0,
                    _ => false,
                },
                None => false,
            },
            _ => false,
        }
    }

    fn string_contains(data_value: &JsonValue, filter_value: &FilterValue) -> (r: bool)
        ensures
            r == match (data_value@, filter_value@) {
                (JVal::Str(d), FVal::Str(p)) => contains_seq(d, p),
                _ => false,
            },
    {
        match (data_value, filter_value) {
            (JsonValue::Str(d), FilterValue::String(p)) => text_contains(d.as_str(), p.as_str()),
            _ => false,
        }
    }

    fn string_starts_with(data_value: &JsonValue, filter_value: &FilterValue) -> (r: bool)
        ensures
            r == match (data_value@, filter_value@) {
                (JVal::Str(d), FVal::Str(p)) => starts_with_seq(d, p),
                _ => false,
            },
    {
        match (data_value, filter_value) {
            (JsonValue::Str(d), FilterValue::String(p)) => {
                let dv = chars_of(d.as_str());
                let pv = chars_of(p.as_str());
                starts_with(&dv, &pv)
            },
            _ => false,
        }
    }

    fn string_ends_with(data_value: &JsonValue, filter_value: &FilterValue) -> (r: bool)
        ensures
            r == match (data_value@, filter_value@) {
                (JVal::Str(d), FVal::Str(p)) => ends_with_seq(d, p),
                _ => false,
            },
    {
        match (data_value, filter_value) {
            (JsonValue::Str(d), FilterValue::String(p)) => {
                let dv = chars_of(d.as_str());
                let pv = chars_of(p.as_str());
                ends_with(&dv, &pv)
            },
            _ => false,
        }
    }

    /// `~` reads its right-hand side as a substring of the value's text.
    fn regex_matches(data_value: &JsonValue, filter_value: &FilterValue) -> (r: bool)
        requires
            wf_json(data_value@),
        ensures
            r == match filter_value@ {
                FVal::Str(p) => contains_seq(value_text(data_value@), p),
                _ => false,
            },
    {
        match filter_value {
            FilterValue::String(p) => {
                let text = format_value(data_value);
                text_contains(text.as_str(), p.as_str())
            },
            _ => false,
        }
    }
}

fn string_truthy_exec(s: &str) -> (r: bool)
    ensures
        r == string_truthy(s@),
{
    let l = crate::text::to_lowercase(s);
    let v = chars_of(l.as_str());
    let falsy = words_equal(&v, &['f', 'a', 'l', 's', 'e']) || words_equal(&v, &['f']) || words_equal(
        &v,
        &['0'],
    ) || words_equal(&v, &['n', 'o']) || words_equal(&v, &['o', 'f', 'f']);
    proof {
        assert(['f', 'a', 'l', 's', 'e']@ == seq!['f', 'a', 'l', 's', 'e']);
        assert(['f']@ == seq!['f']);
        assert(['0']@ == seq!['0']);
        assert(['n', 'o']@ == seq!['n', 'o']);
        assert(['o', 'f', 'f']@ == seq!['o', 'f', 'f']);
        assert(['t', 'r', 'u', 'e']@ == seq!['t', 'r', 'u', 'e']);
        assert(['t']@ == seq!['t']);
        assert(['1']@ == seq!['1']);
        assert(['y', 'e', 's']@ == seq!['y', 'e', 's']);
        assert(['o', 'n']@ == seq!['o', 'n']);
    }
    if falsy {
        return false;
    }
    let truthy_word = words_equal(&v, &['t', 'r', 'u', 'e']) || words_equal(&v, &['t'])
        || words_equal(&v, &['1']) || words_equal(&v, &['y', 'e', 's']) || words_equal(
        &v,
        &['o', 'n'],
    );
    if truthy_word {
        return true;
    }
    let sv = chars_of(s);
    sv.len() > 0
}

/// `a` and `b` hold the same characters.
pub fn words_equal(a: &[char], b: &[char]) -> (r: bool)
    ensures
        r == (a@ == b@),
{
    if a.len() != b.len() {
        return false;
    }
    let mut i: usize = 0;
    while i < a.len()
        invariant
            i <= a.len(),
            a.len() == b.len(),
            forall|k: int| 0 <= k < i ==> a@[k] == b@[k],
        decreases a.len() - i,
    {
        if a[i] != b[i] {
            return false;
        }
        i = i + 1;
    }
    proof {
        assert(a@ =~= b@);
    }
    true
}

/// An output template: literal text, field values and conditionals.
#[derive(Debug, PartialEq)]
pub struct Template {
    pub items: Vec<TemplateItem>,
}

/// One piece of a template.
#[derive(Debug, PartialEq)]
pub enum TemplateItem {
    Field(FieldPath),
    Literal(String),
    Conditional { field: FieldPath, true_template: Template, false_template: Template },
}

/// The mathematical template piece.
pub enum TItem {
    Field(Seq<Seq<char>>),
    Lit(Seq<char>),
    Cond(Seq<Seq<char>>, Seq<TItem>, Seq<TItem>),
}

impl View for Template {
    type V = Seq<TItem>;

    open spec fn view(&self) -> Seq<TItem>
        decreases self,
    {
        Seq::new(
            self.items.len() as nat,
            |i: int|
                if 0 <= i < self.items.len() {
                    self.items@[i].view()
                } else {
                    TItem::Lit(Seq::empty())
                },
        )
    }
}

impl View for TemplateItem {
    type V = TItem;

    open spec fn view(&self) -> TItem
        decreases self,
    {
        match self {
            TemplateItem::Field(f) => TItem::Field(f@),
            TemplateItem::Literal(s) => TItem::Lit(s@),
            TemplateItem::Conditional { field, true_template, false_template } => TItem::Cond(
                field@,
                true_template.view(),
                false_template.view(),
            ),
        }
    }
}

/// The text of the first `n` pieces of a template over `data`.
pub open spec fn render_items(items: Seq<TItem>, n: int, data: JVal) -> Seq<char>
    decreases items, n,
{
    if n <= 0 || n > items.len() {
        Seq::empty()
    } else {
        render_items(items, n - 1, data) + render_item(items[n - 1], data)
    }
}

/// The text of one piece over `data`: a field shows its value, or nothing
/// when missing; a conditional renders one branch by the field's
/// truthiness.
pub open spec fn render_item(it: TItem, data: JVal) -> Seq<char>
    decreases it, 0int,
{
    match it {
        TItem::Field(path) => match lookup(path, data) {
            Some(v) => shown(v),
            None => Seq::empty(),
        },
        TItem::Lit(s) => s,
        TItem::Cond(path, t, f) => if truthy(lookup(path, data)) {
            render_items(t, t.len() as int, data)
        } else {
            render_items(f, f.len() as int, data)
        },
    }
}

/// The text of a template over `data`.
pub open spec fn rendered(t: Seq<TItem>, data: JVal) -> Seq<char> {
    render_items(t, t.len() as int, data)
}

/// The first `n` pieces of `a + b` render as the first `n` of `a` when
/// `n` stays within `a`, and as all of `a` then the first `n - a.len()` of
/// `b` beyond it.
proof fn lemma_render_items_concat(a: Seq<TItem>, b: Seq<TItem>, n: int, data: JVal)
    requires
        0 <= n <= a.len() + b.len(),
    ensures
        n <= a.len() ==> render_items(a + b, n, data) == render_items(a, n, data),
        n > a.len() ==> render_items(a + b, n, data) == render_items(a, a.len() as int, data)
            + render_items(b, n - a.len(), data),
    decreases n,
{
    if n > 0 {
        lemma_render_items_concat(a, b, n - 1, data);
        if n > a.len() {
            assert((a + b)[n - 1] == b[n - a.len() - 1]);
            if n - 1 == a.len() {
                assert(render_items(b, 0, data) == Seq::<char>::empty());
                assert(render_items(a, a.len() as int, data) + Seq::<char>::empty() == render_items(
                    a,
                    a.len() as int,
                    data,
                ));
            }
            assert(render_items(a, a.len() as int, data) + render_items(b, n - 1 - a.len(), data)
                + render_item(b[n - a.len() - 1], data) == render_items(a, a.len() as int, data) + (
            render_items(b, n - 1 - a.len(), data) + render_item(b[n - a.len() - 1], data)));
        } else {
            assert((a + b)[n - 1] == a[n - 1]);
        }
    }
}

/// Rendering is a concatenation: a template made of two templates, one
/// after the other, renders as the first's text followed by the second's.
/// An empty template renders as nothing, a lone literal as its text, and a
/// lone field the data lacks as nothing.
pub proof fn lemma_render_concat(a: Seq<TItem>, b: Seq<TItem>, data: JVal)
    ensures
        rendered(a + b, data) == rendered(a, data) + rendered(b, data),
        rendered(Seq::empty(), data) == Seq::<char>::empty(),
        forall|s: Seq<char>| rendered(seq![TItem::Lit(s)], data) == s,
        forall|p: Seq<Seq<char>>|
            lookup(p, data) is None ==> rendered(seq![TItem::Field(p)], data) == Seq::<char>::empty(),
{
    lemma_render_items_concat(a, b, (a.len() + b.len()) as int, data);
    if b.len() == 0 {
        assert(a + b == a);
        assert(rendered(a, data) + Seq::<char>::empty() == rendered(a, data));
    }
    assert forall|s: Seq<char>| rendered(seq![TItem::Lit(s)], data) == s by {
        let t = seq![TItem::Lit(s)];
        assert(t[0] == TItem::Lit(s));
        assert(render_items(t, 0, data) == Seq::<char>::empty());
        assert(render_items(t, 1, data) == render_items(t, 0, data) + render_item(t[0], data));
        assert(Seq::<char>::empty() + s == s);
    }
    assert forall|p: Seq<Seq<char>>| lookup(p, data) is None implies rendered(seq![TItem::Field(p)], data)
        == Seq::<char>::empty() by {
        let t = seq![TItem::Field(p)];
        assert(t[0] == TItem::Field(p));
        assert(render_items(t, 0, data) == Seq::<char>::empty());
        assert(render_items(t, 1, data) == render_items(t, 0, data) + render_item(t[0], data));
        assert(Seq::<char>::empty() + Seq::<char>::empty() == Seq::<char>::empty());
    }
}

/// Append the text of `items` over `data`.
fn render_into(out: &mut String, items: &Vec<TemplateItem>, data: &JsonValue)
    requires
        wf_json(data@),
    ensures
        final(out)@ == old(out)@ + rendered((Template { items: *items })@, data@),
    decreases items,
{
    let ghost tv = (Template { items: *items })@;
    let mut i: usize = 0;
    while i < items.len()
        invariant
            i <= items.len(),
            wf_json(data@),
            tv == (Template { items: *items })@,
            tv.len() == items.len(),
            out@ == old(out)@ + render_items(tv, i as int, data@),
        decreases items.len() - i,
    {
        proof {
            assert(tv[i as int] == items@[i as int]@);
        }
        let ghost before = out@;
        let ghost it = tv[i as int];
        match &items[i] {
            TemplateItem::Field(field) => {
                match field.get_value(data) {
                    Some(value) => {
                        proof {
                            lemma_lookup_wf(field@, data@);
                        }
                        let text = format_value(value);
                        out.append(text.as_str());
                    },
                    None => {
                        assert(out@ =~= before + render_item(it, data@));
                    },
                }
                assert(out@ =~= before + render_item(it, data@));
            },
            TemplateItem::Literal(text) => {
                out.append(text.as_str());
                assert(out@ =~= before + render_item(it, data@));
            },
            TemplateItem::Conditional { field, true_template, false_template } => {
                proof {
                    assert(decreases_to!(*items => items@[i as int]));
                }
                if FilterEngine::evaluate_field_truthiness(field, data) {
                    render_into(out, &true_template.items, data);
                    proof {
                        assert((Template { items: true_template.items })@ == true_template@);
                        assert(out@ =~= before + render_item(it, data@));
                    }
                } else {
                    render_into(out, &false_template.items, data);
                    proof {
                        assert((Template { items: false_template.items })@ == false_template@);
                        assert(out@ =~= before + render_item(it, data@));
                    }
                }
            },
        }
        i = i + 1;
        proof {
            assert(out@ =~= old(out)@ + render_items(tv, i as int, data@));
        }
    }
}

impl Template {
    /// The template's text over `data`.
    pub fn render(&self, data: &JsonValue) -> (r: String)
        requires
            wf_json(data@),
        ensures
            r@ == rendered(self@, data@),
    {
        let mut out = String::new();
        render_into(&mut out, &self.items, data);
        proof {
            assert((Template { items: self.items })@ == self@);
            assert(out@ =~= rendered(self@, data@));
        }
        out
    }
}

} // verus!
