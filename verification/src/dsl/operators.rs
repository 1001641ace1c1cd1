//! The comparison operators of the expression grammar.

use vstd::prelude::*;
use crate::filter::ComparisonOp;
use crate::text::{chars_of, starts_with};

verus! {

/// Operator definition with string representation and enum variant.
#[derive(Debug, PartialEq)]
pub struct OperatorDef {
    /// The string representation used in the expression language.
    pub symbol: &'static str,
    /// The corresponding comparison.
    pub op: ComparisonOp,
}

/// The grammar's operators, in order: multi-character symbols first.
pub open spec fn grammar_operator_table() -> Seq<(Seq<char>, ComparisonOp)> {
    seq![
        (seq!['=', '='], ComparisonOp::Equal),
        (seq!['!', '='], ComparisonOp::NotEqual),
        (seq!['<', '='], ComparisonOp::LessThanOrEqual),
        (seq!['>', '='], ComparisonOp::GreaterThanOrEqual),
        (seq!['^', '='], ComparisonOp::StartsWith),
        (seq!['$', '='], ComparisonOp::EndsWith),
        (seq!['*', '='], ComparisonOp::Contains),
        (seq!['~', '='], ComparisonOp::Regex),
        (seq!['<'], ComparisonOp::LessThan),
        (seq!['>'], ComparisonOp::GreaterThan),
        (seq!['~'], ComparisonOp::Contains),
    ]
}

pub open spec fn grammar_def_is_row(d: OperatorDef, i: int) -> bool {
    &&& d.symbol@ == grammar_operator_table()[i].0
    &&& d.op == grammar_operator_table()[i].1
}

fn def(symbol: &'static str, op: ComparisonOp) -> (d: OperatorDef)
    ensures
        d.symbol == symbol,
        d.op == op,
{
    OperatorDef { symbol, op }
}

/// All operators of the grammar, in the table's order.
pub fn operators() -> (r: Vec<OperatorDef>)
    ensures
        r.len() == grammar_operator_table().len(),
        forall|i: int| 0 <= i < r.len() ==> grammar_def_is_row(#[trigger] r@[i], i),
{
    proof {
        reveal_strlit("==");
        reveal_strlit("!=");
        reveal_strlit("<=");
        reveal_strlit(">=");
        reveal_strlit("^=");
        reveal_strlit("$=");
        reveal_strlit("*=");
        reveal_strlit("~=");
        reveal_strlit("<");
        reveal_strlit(">");
        reveal_strlit("~");
    }
    let mut r: Vec<OperatorDef> = Vec::new();
    let d0 = def("==", ComparisonOp::Equal);
    assert(d0.symbol@ == seq!['=', '=']);
    r.push(d0);
    let d1 = def("!=", ComparisonOp::NotEqual);
    assert(d1.symbol@ == seq!['!', '=']);
    r.push(d1);
    let d2 = def("<=", ComparisonOp::LessThanOrEqual);
    assert(d2.symbol@ == seq!['<', '=']);
    r.push(d2);
    let d3 = def(">=", ComparisonOp::GreaterThanOrEqual);
    assert(d3.symbol@ == seq!['>', '=']);
    r.push(d3);
    let d4 = def("^=", ComparisonOp::StartsWith);
    assert(d4.symbol@ == seq!['^', '=']);
    r.push(d4);
    let d5 = def("$=", ComparisonOp::EndsWith);
    assert(d5.symbol@ == seq!['$', '=']);
    r.push(d5);
    let d6 = def("*=", ComparisonOp::Contains);
    assert(d6.symbol@ == seq!['*', '=']);
    r.push(d6);
    let d7 = def("~=", ComparisonOp::Regex);
    assert(d7.symbol@ == seq!['~', '=']);
    r.push(d7);
    let d8 = def("<", ComparisonOp::LessThan);
    assert(d8.symbol@ == seq!['<']);
    r.push(d8);
    let d9 = def(">", ComparisonOp::GreaterThan);
    assert(d9.symbol@ == seq!['>']);
    r.push(d9);
    let d10 = def("~", ComparisonOp::Contains);
    assert(d10.symbol@ == seq!['~']);
    r.push(d10);
    assert(grammar_def_is_row(r@[0], 0));
    assert(grammar_def_is_row(r@[1], 1));
    assert(grammar_def_is_row(r@[2], 2));
    assert(grammar_def_is_row(r@[3], 3));
    assert(grammar_def_is_row(r@[4], 4));
    assert(grammar_def_is_row(r@[5], 5));
    assert(grammar_def_is_row(r@[6], 6));
    assert(grammar_def_is_row(r@[7], 7));
    assert(grammar_def_is_row(r@[8], 8));
    assert(grammar_def_is_row(r@[9], 9));
    assert(grammar_def_is_row(r@[10], 10));
    r
}

/// The table's symbols are distinct.
pub proof fn lemma_grammar_symbols_distinct()
    ensures
        forall|i: int, j: int|
            0 <= i < grammar_operator_table().len() && 0 <= j < grammar_operator_table().len()
                && i != j ==> grammar_operator_table()[i].0 != grammar_operator_table()[j].0,
{
    assert forall|i: int, j: int|
        0 <= i < grammar_operator_table().len() && 0 <= j < grammar_operator_table().len() && i
            != j implies grammar_operator_table()[i].0 != grammar_operator_table()[j].0 by {
        let a = grammar_operator_table()[i].0;
        let b = grammar_operator_table()[j].0;
        if a.len() == b.len() {
            if a.len() == 2 {
                assert(a[0] != b[0] || a[1] != b[1]);
            } else {
                assert(a[0] != b[0]);
            }
        }
    }
}

/// The message for a symbol that names no operator.
pub open spec fn unknown_operator_message(s: Seq<char>) -> Seq<char> {
    "unknown comparison operator '"@ + s + "'"@
}

/// What `parse_comparison_op` returns: the op of the row whose symbol is
/// `s`, or an error naming `s`.
pub open spec fn grammar_op_of(s: Seq<char>) -> Result<ComparisonOp, Seq<char>> {
    if exists|i: int| 0 <= i < grammar_operator_table().len() && grammar_operator_table()[i].0 == s {
        Ok(
            grammar_operator_table()[choose|i: int|
                0 <= i < grammar_operator_table().len() && grammar_operator_table()[i].0
                    == s].1,
        )
    } else {
        Err(unknown_operator_message(s))
    }
}

/// Parse a comparison operator from its symbol. An unknown symbol is an
/// error, never a silent `Equal`.
pub fn parse_comparison_op(op_str: &str) -> (r: Result<ComparisonOp, String>)
    ensures
        match r {
            Ok(op) => grammar_op_of(op_str@) == Ok::<ComparisonOp, Seq<char>>(op),
            Err(msg) => grammar_op_of(op_str@) == Err::<ComparisonOp, Seq<char>>(msg@),
        },
{
    let s = chars_of(op_str);
    let table = operators();
    let mut i: usize = 0;
    while i < table.len()
        invariant
            i <= table.len(),
            table.len() == grammar_operator_table().len(),
            forall|k: int| 0 <= k < table.len() ==> grammar_def_is_row(#[trigger] table@[k], k),
            forall|k: int| 0 <= k < i ==> grammar_operator_table()[k].0 != s@,
            s@ == op_str@,
        decreases table.len() - i,
    {
        let sym = chars_of(table[i].symbol);
        if sym.len() == s.len() && starts_with(&s, &sym) {
            proof {
                assert(sym@ == s@);
                lemma_grammar_symbols_distinct();
                assert(grammar_def_is_row(table@[i as int], i as int));
            }
            return Ok(table[i].op);
        }
        proof {
            assert(grammar_def_is_row(table@[i as int], i as int));
            if grammar_operator_table()[i as int].0 == s@ {
                assert(s@.take(sym@.len() as int) == s@);
            }
        }
        i = i + 1;
    }
    let mut msg = String::from_str("unknown comparison operator '");
    msg.append(op_str);
    msg.append("'");
    Err(msg)
}

} // verus!
