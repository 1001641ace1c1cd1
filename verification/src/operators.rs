//! The operator table of the expression language: comparison symbols, the
//! logical symbols, and the scan that tells a filter from other input.

use vstd::prelude::*;
use crate::filter::ComparisonOp;
use crate::text::{chars_of, contains, contains_seq, starts_with, starts_with_seq};

verus! {

/// Operator definition with string representation and enum variant.
#[derive(Debug, PartialEq)]
pub struct OperatorDef {
    /// The string representation used in the expression language.
    pub symbol: &'static str,
    /// The corresponding comparison.
    pub op: ComparisonOp,
    /// Whether this operator requires spaces around it for disambiguation.
    pub needs_spaces: bool,
}

/// The table, in order: multi-character symbols before single ones.
pub open spec fn operator_table() -> Seq<(Seq<char>, ComparisonOp, bool)> {
    seq![
        (seq!['=', '='], ComparisonOp::Equal, false),
        (seq!['!', '='], ComparisonOp::NotEqual, false),
        (seq!['<', '='], ComparisonOp::LessThanOrEqual, false),
        (seq!['>', '='], ComparisonOp::GreaterThanOrEqual, false),
        (seq!['^', '='], ComparisonOp::StartsWith, false),
        (seq!['$', '='], ComparisonOp::EndsWith, false),
        (seq!['*', '='], ComparisonOp::Contains, false),
        (seq!['<'], ComparisonOp::LessThan, true),
        (seq!['>'], ComparisonOp::GreaterThan, true),
        (seq!['~'], ComparisonOp::Matches, false),
    ]
}

/// The logical symbols, in order.
pub open spec fn logical_table() -> Seq<Seq<char>> {
    seq![seq!['&', '&'], seq!['|', '|'], seq!['!']]
}

/// Whether `d` is the `i`th row of the table.
pub open spec fn def_is_row(d: OperatorDef, i: int) -> bool {
    &&& d.symbol@ == operator_table()[i].0
    &&& d.op == operator_table()[i].1
    &&& d.needs_spaces == operator_table()[i].2
}

fn def(symbol: &'static str, op: ComparisonOp, needs_spaces: bool) -> (d: OperatorDef)
    ensures
        d.symbol == symbol,
        d.op == op,
        d.needs_spaces == needs_spaces,
{
    OperatorDef { symbol, op, needs_spaces }
}

/// All supported comparison operators, in the table's order.
pub fn operators() -> (r: Vec<OperatorDef>)
    ensures
        r.len() == operator_table().len(),
        forall|i: int| 0 <= i < r.len() ==> def_is_row(#[trigger] r@[i], i),
{
    proof {
        reveal_strlit("==");
        reveal_strlit("!=");
        reveal_strlit("<=");
        reveal_strlit(">=");
        reveal_strlit("^=");
        reveal_strlit("$=");
        reveal_strlit("*=");
        reveal_strlit("<");
        reveal_strlit(">");
        reveal_strlit("~");
    }
    let mut r: Vec<OperatorDef> = Vec::new();
    let d0 = def("==", ComparisonOp::Equal, false);
    assert(d0.symbol@ == seq!['=', '=']);
    r.push(d0);
    let d1 = def("!=", ComparisonOp::NotEqual, false);
    assert(d1.symbol@ == seq!['!', '=']);
    r.push(d1);
    let d2 = def("<=", ComparisonOp::LessThanOrEqual, false);
    assert(d2.symbol@ == seq!['<', '=']);
    r.push(d2);
    let d3 = def(">=", ComparisonOp::GreaterThanOrEqual, false);
    assert(d3.symbol@ == seq!['>', '=']);
    r.push(d3);
    let d4 = def("^=", ComparisonOp::StartsWith, false);
    assert(d4.symbol@ == seq!['^', '=']);
    r.push(d4);
    let d5 = def("$=", ComparisonOp::EndsWith, false);
    assert(d5.symbol@ == seq!['$', '=']);
    r.push(d5);
    let d6 = def("*=", ComparisonOp::Contains, false);
    assert(d6.symbol@ == seq!['*', '=']);
    r.push(d6);
    let d7 = def("<", ComparisonOp::LessThan, true);
    assert(d7.symbol@ == seq!['<']);
    r.push(d7);
    let d8 = def(">", ComparisonOp::GreaterThan, true);
    assert(d8.symbol@ == seq!['>']);
    r.push(d8);
    let d9 = def("~", ComparisonOp::Matches, false);
    assert(d9.symbol@ == seq!['~']);
    r.push(d9);
    assert(def_is_row(r@[0], 0));
    assert(def_is_row(r@[1], 1));
    assert(def_is_row(r@[2], 2));
    assert(def_is_row(r@[3], 3));
    assert(def_is_row(r@[4], 4));
    assert(def_is_row(r@[5], 5));
    assert(def_is_row(r@[6], 6));
    assert(def_is_row(r@[7], 7));
    assert(def_is_row(r@[8], 8));
    assert(def_is_row(r@[9], 9));
    r
}

/// Logical operators for conditions.
pub fn logical_operators() -> (r: Vec<&'static str>)
    ensures
        r.len() == logical_table().len(),
        forall|i: int| 0 <= i < r.len() ==> (#[trigger] r@[i])@ == logical_table()[i],
{
    proof {
        reveal_strlit("&&");
        reveal_strlit("||");
        reveal_strlit("!");
    }
    let mut r: Vec<&'static str> = Vec::new();
    let a = "&&";
    let b = "||";
    let c = "!";
    assert(a@ == seq!['&', '&']);
    assert(b@ == seq!['|', '|']);
    assert(c@ == seq!['!']);
    r.push(a);
    r.push(b);
    r.push(c);
    r
}

/// What `parse_comparison_op` returns: the op of the first row whose symbol
/// is `s`, `Equal` when none is.
pub open spec fn comparison_op_of(s: Seq<char>) -> ComparisonOp {
    if exists|i: int| 0 <= i < operator_table().len() && operator_table()[i].0 == s {
        operator_table()[choose|i: int| 0 <= i < operator_table().len() && operator_table()[i].0 == s].1
    } else {
        ComparisonOp::Equal
    }
}

/// The table's symbols are distinct, so a symbol names one row.
pub proof fn lemma_symbols_distinct()
    ensures
        forall|i: int, j: int|
            0 <= i < operator_table().len() && 0 <= j < operator_table().len() && i != j
                ==> operator_table()[i].0 != operator_table()[j].0,
{
    assert forall|i: int, j: int|
        0 <= i < operator_table().len() && 0 <= j < operator_table().len() && i != j
            implies operator_table()[i].0 != operator_table()[j].0 by {
        let a = operator_table()[i].0;
        let b = operator_table()[j].0;
        if a.len() == b.len() {
            if a.len() == 2 {
                assert(a[0] != b[0] || a[1] != b[1]);
            } else {
                assert(a[0] != b[0]);
            }
        }
    }
}

/// Parse a comparison operator from its symbol; `Equal` for an unknown
/// symbol.
pub fn parse_comparison_op(op_str: &str) -> (r: ComparisonOp)
    ensures
        r == comparison_op_of(op_str@),
{
    let s = chars_of(op_str);
    let table = operators();
    let mut i: usize = 0;
    while i < table.len()
        invariant
            i <= table.len(),
            table.len() == operator_table().len(),
            forall|k: int| 0 <= k < table.len() ==> def_is_row(#[trigger] table@[k], k),
            forall|k: int| 0 <= k < i ==> operator_table()[k].0 != s@,
            s@ == op_str@,
        decreases table.len() - i,
    {
        let sym = chars_of(table[i].symbol);
        if sym.len() == s.len() && starts_with(&s, &sym) {
            proof {
                assert(sym@ == s@);
                lemma_symbols_distinct();
                assert(def_is_row(table@[i as int], i as int));
            }
            return table[i].op;
        }
        proof {
            assert(def_is_row(table@[i as int], i as int));
            if operator_table()[i as int].0 == s@ {
                assert(s@.take(sym@.len() as int) == s@);
            }
        }
        i = i + 1;
    }
    ComparisonOp::Equal
}

/// Whether `input` holds any filter operator: a comparison symbol, `&&`,
/// `||`, a leading `!` or a spaced ` ! `.
pub open spec fn has_filter_operator(input: Seq<char>) -> bool {
    ||| exists|i: int| 0 <= i < operator_table().len() && contains_seq(input, #[trigger] operator_table()[i].0)
    ||| contains_seq(input, seq!['&', '&'])
    ||| contains_seq(input, seq!['|', '|'])
    ||| starts_with_seq(input, seq!['!'])
    ||| contains_seq(input, seq![' ', '!', ' '])
}

/// Check if the input string contains any filter operators.
///
/// Used to tell field selectors, filters and templates apart.
pub fn contains_filter_operators(input: &str) -> (r: bool)
    ensures
        r == has_filter_operator(input@),
{
    let s = chars_of(input);
    let table = operators();
    let mut i: usize = 0;
    while i < table.len()
        invariant
            i <= table.len(),
            table.len() == operator_table().len(),
            forall|k: int| 0 <= k < table.len() ==> def_is_row(#[trigger] table@[k], k),
            forall|k: int| 0 <= k < i ==> !contains_seq(s@, #[trigger] operator_table()[k].0),
            s@ == input@,
        decreases table.len() - i,
    {
        let sym = chars_of(table[i].symbol);
        proof {
            assert(def_is_row(table@[i as int], i as int));
        }
        // A spaced single-character symbol holds the bare symbol, so the
        // bare check decides both.
        if contains(&s, &sym) {
            return true;
        }
        i = i + 1;
    }
    let and_and = ['&', '&'];
    let or_or = ['|', '|'];
    let bang = ['!'];
    let spaced_bang = [' ', '!', ' '];
    assert(and_and@ == seq!['&', '&']);
    assert(or_or@ == seq!['|', '|']);
    assert(bang@ == seq!['!']);
    assert(spaced_bang@ == seq![' ', '!', ' ']);
    contains(&s, &and_and) || contains(&s, &or_or) || starts_with(&s, &bang) || contains(
        &s,
        &spaced_bang,
    )
}

/// All comparison symbols, in the table's order.
pub fn get_all_operator_symbols() -> (r: Vec<&'static str>)
    ensures
        r.len() == operator_table().len(),
        forall|i: int| 0 <= i < r.len() ==> (#[trigger] r@[i])@ == operator_table()[i].0,
{
    let table = operators();
    let mut r: Vec<&'static str> = Vec::new();
    let mut i: usize = 0;
    while i < table.len()
        invariant
            i <= table.len(),
            r.len() == i,
            table.len() == operator_table().len(),
            forall|k: int| 0 <= k < table.len() ==> def_is_row(#[trigger] table@[k], k),
            forall|k: int| 0 <= k < i ==> (#[trigger] r@[k])@ == operator_table()[k].0,
        decreases table.len() - i,
    {
        proof {
            assert(def_is_row(table@[i as int], i as int));
        }
        r.push(table[i].symbol);
        i = i + 1;
    }
    r
}

/// All logical symbols.
pub fn get_all_logical_symbols() -> (r: Vec<&'static str>)
    ensures
        r.len() == logical_table().len(),
        forall|i: int| 0 <= i < r.len() ==> (#[trigger] r@[i])@ == logical_table()[i],
{
    logical_operators()
}

} // verus!
