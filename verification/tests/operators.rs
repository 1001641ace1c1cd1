use parsm::filter::ComparisonOp;
use parsm::operators::{contains_filter_operators, parse_comparison_op};
use parsm::dsl::operators::parse_comparison_op as grammar_op;
use parsm::dsl::operators::operators as grammar_operators;

#[test]
fn operators_test_parse_comparison_op() {
    assert_eq!(parse_comparison_op("=="), ComparisonOp::Equal);
    assert_eq!(parse_comparison_op("!="), ComparisonOp::NotEqual);
    assert_eq!(parse_comparison_op("<"), ComparisonOp::LessThan);
    assert_eq!(parse_comparison_op("<="), ComparisonOp::LessThanOrEqual);
    assert_eq!(parse_comparison_op(">"), ComparisonOp::GreaterThan);
    assert_eq!(parse_comparison_op(">="), ComparisonOp::GreaterThanOrEqual);
    assert_eq!(parse_comparison_op("*="), ComparisonOp::Contains);
    assert_eq!(parse_comparison_op("^="), ComparisonOp::StartsWith);
    assert_eq!(parse_comparison_op("$="), ComparisonOp::EndsWith);
    assert_eq!(parse_comparison_op("~"), ComparisonOp::Matches);
    assert_eq!(parse_comparison_op("unknown"), ComparisonOp::Equal);

    assert_eq!(grammar_op("==").unwrap(), ComparisonOp::Equal);
    assert_eq!(grammar_op("!=").unwrap(), ComparisonOp::NotEqual);
    assert_eq!(grammar_op("<").unwrap(), ComparisonOp::LessThan);
    assert_eq!(grammar_op("<=").unwrap(), ComparisonOp::LessThanOrEqual);
    assert_eq!(grammar_op(">").unwrap(), ComparisonOp::GreaterThan);
    assert_eq!(grammar_op(">=").unwrap(), ComparisonOp::GreaterThanOrEqual);
    assert_eq!(grammar_op("*=").unwrap(), ComparisonOp::Contains);
    assert_eq!(grammar_op("^=").unwrap(), ComparisonOp::StartsWith);
    assert_eq!(grammar_op("$=").unwrap(), ComparisonOp::EndsWith);
    assert!(grammar_op("unknown").is_err());
}

#[test]
fn every_operator_symbol_parses_and_unknown_errors() {
    for op in grammar_operators() {
        assert_eq!(grammar_op(op.symbol).unwrap(), op.op);
    }
    assert!(grammar_op("=").is_err());
    assert!(grammar_op("<>").is_err());
    assert!(grammar_op("").is_err());
}

#[test]
fn operators_test_get_operator_symbols() {
    let symbols = parsm::operators::get_all_operator_symbols();
    assert!(symbols.contains(&"=="));
    assert!(symbols.contains(&"*="));
    assert!(symbols.contains(&">="));
    assert_eq!(symbols.len(), parsm::operators::operators().len());

    let grammar: Vec<&'static str> = parsm::dsl::operators::operators()
        .iter()
        .map(|op| op.symbol)
        .collect();
    assert!(grammar.contains(&"=="));
    assert!(grammar.contains(&"*="));
    assert!(grammar.contains(&">="));
    assert_eq!(grammar.len(), parsm::dsl::operators::operators().len());
}

#[test]
fn test_contains_filter_operators() {
    assert!(contains_filter_operators("age > 25"));
    assert!(contains_filter_operators("name == \"test\""));
    assert!(contains_filter_operators("field != null"));
    assert!(contains_filter_operators("score >= 90"));
    assert!(contains_filter_operators("name *= something"));
    assert!(contains_filter_operators("name ^= prefix"));
    assert!(contains_filter_operators("path $= .txt"));
    assert!(contains_filter_operators("text ~ pattern"));

    assert!(contains_filter_operators("active && enabled"));
    assert!(contains_filter_operators("status || fallback"));
    assert!(contains_filter_operators("!active"));

    assert!(!contains_filter_operators("simple_field"));
    assert!(!contains_filter_operators("{template}"));
    assert!(!contains_filter_operators("$variable"));
    assert!(!contains_filter_operators("user.name"));
}

#[test]
fn test_get_logical_symbols() {
    let symbols = parsm::operators::get_all_logical_symbols();
    assert!(symbols.contains(&"&&"));
    assert!(symbols.contains(&"||"));
    assert!(symbols.contains(&"!"));
    assert_eq!(symbols.len(), parsm::operators::logical_operators().len());
}
