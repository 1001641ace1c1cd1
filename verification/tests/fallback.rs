use parsm::dsl::DSLParser;
use parsm::filter::TemplateItem;
use parsm::dsl::fallback::{
    parse_field_name_for_truthy, parse_field_name_simple, parse_simple_filter, split_filter_template_manually,
    try_as_field_selector, try_boolean_with_truthy_fields, try_fallback_parsing, try_parse_single_boolean_term,
    try_simple_template_patterns,
};
use parsm::filter::{ComparisonOp, FilterExpr, FilterValue};

#[test]
fn test_parse_field_name_for_truthy() {
    let field = parse_field_name_for_truthy("active");
    assert_eq!(field.parts, vec!["active"]);

    let field = parse_field_name_for_truthy("active?");
    assert_eq!(field.parts, vec!["active"]);

    let field = parse_field_name_for_truthy("user.verified");
    assert_eq!(field.parts, vec!["user", "verified"]);

    let field = parse_field_name_for_truthy("user.verified?");
    assert_eq!(field.parts, vec!["user", "verified"]);
}

#[test]
fn test_split_filter_template_manually() {
    let result = split_filter_template_manually("age > 25 {Hello ${name}}");
    assert!(result.is_some());
    let (filter_part, template_part) = result.unwrap();
    assert_eq!(filter_part, "age > 25");
    assert_eq!(template_part, "{Hello ${name}}");

    let result = split_filter_template_manually("status == \"active\" [User: ${name}]");
    assert!(result.is_some());
    let (filter_part, template_part) = result.unwrap();
    assert_eq!(filter_part, "status == \"active\"");
    assert_eq!(template_part, "[User: ${name}]");

    let result = split_filter_template_manually("message == \"Hello {world}\"");
    assert!(result.is_none());
}

#[test]
fn template_at_the_start_does_not_split() {
    assert!(split_filter_template_manually("{${name}}").is_none());
}

#[test]
fn simple_field_names() {
    assert_eq!(parse_field_name_simple("0").parts, vec!["$0"]);
    assert_eq!(parse_field_name_simple("3").parts, vec!["3"]);
    assert_eq!(parse_field_name_simple("user. name").parts, vec!["user", "name"]);
}

#[test]
fn manual_template_content_reads_fields_and_literals() {
    let t = DSLParser::parse_template_content_manually("Hi ${user.name}, you are $age! Cost $12 ${0} ${2} ${a{b}c}").unwrap();
    let shown: Vec<String> = t
        .items
        .iter()
        .map(|item| match item {
            TemplateItem::Field(f) => format!("F{:?}", f.parts),
            TemplateItem::Literal(s) => format!("L{s}"),
            TemplateItem::Conditional { .. } => "C".to_string(),
        })
        .collect();
    assert_eq!(
        shown,
        vec![
            "LHi ".to_string(),
            "F[\"user\", \"name\"]".to_string(),
            "L, you are ".to_string(),
            "F[\"age\"]".to_string(),
            "L! Cost ".to_string(),
            "L$12 ".to_string(),
            "F[\"$0\"]".to_string(),
            "L ".to_string(),
            "F[\"field_1\"]".to_string(),
            "L ".to_string(),
            "F[\"a{b}c\"]".to_string(),
        ]
    );
    let t = DSLParser::parse_template_content_manually("").unwrap();
    assert!(t.items.is_empty());
    let t = DSLParser::parse_template_content_manually("${}x${unclosed").unwrap();
    assert_eq!(t.items.len(), 2);
}

#[test]
fn test_try_simple_template_patterns() {
    let result = try_simple_template_patterns("{Hello ${name}}").unwrap();
    assert!(result.template.is_some());
    let template = result.template.unwrap();
    assert_eq!(template.items.len(), 2);

    let result = try_simple_template_patterns("$name").unwrap();
    assert!(result.template.is_some());
    let template = result.template.unwrap();
    assert_eq!(template.items.len(), 1);
    match &template.items[0] {
        TemplateItem::Field(field) => assert_eq!(field.parts, vec!["name"]),
        _ => panic!("Expected field"),
    }

    let result = try_simple_template_patterns("$20").unwrap();
    assert!(result.template.is_some());
    let template = result.template.unwrap();
    assert_eq!(template.items.len(), 1);
    match &template.items[0] {
        TemplateItem::Literal(text) => assert_eq!(text, "$20"),
        _ => panic!("Expected literal"),
    }
}

#[test]
fn test_try_as_field_selector() {
    let result = try_as_field_selector("name").unwrap();
    assert!(result.field_selector.is_some());
    assert_eq!(result.field_selector.unwrap().parts, vec!["name"]);

    let result = try_as_field_selector("user.email").unwrap();
    assert!(result.field_selector.is_some());
    assert_eq!(result.field_selector.unwrap().parts, vec!["user", "email"]);

    let result = try_as_field_selector("\"field with spaces\"").unwrap();
    assert!(result.field_selector.is_some());
    assert_eq!(result.field_selector.unwrap().parts, vec!["field with spaces"]);

    let result = try_as_field_selector("'another field'").unwrap();
    assert!(result.field_selector.is_some());
    assert_eq!(result.field_selector.unwrap().parts, vec!["another field"]);
}

#[test]
fn test_try_boolean_with_truthy_fields() {
    let result = try_boolean_with_truthy_fields("active? && verified?").unwrap();
    assert!(result.filter.is_some());
    match result.filter.unwrap() {
        FilterExpr::And(left, right) => match (left.as_ref(), right.as_ref()) {
            (FilterExpr::FieldTruthy(l), FilterExpr::FieldTruthy(r)) => {
                assert_eq!(l.parts, vec!["active"]);
                assert_eq!(r.parts, vec!["verified"]);
            }
            _ => panic!("Expected FieldTruthy expressions"),
        },
        _ => panic!("Expected AND expression"),
    }

    let result = try_boolean_with_truthy_fields("premium? || admin?").unwrap();
    assert!(result.filter.is_some());
    match result.filter.unwrap() {
        FilterExpr::Or(left, right) => match (left.as_ref(), right.as_ref()) {
            (FilterExpr::FieldTruthy(l), FilterExpr::FieldTruthy(r)) => {
                assert_eq!(l.parts, vec!["premium"]);
                assert_eq!(r.parts, vec!["admin"]);
            }
            _ => panic!("Expected FieldTruthy expressions"),
        },
        _ => panic!("Expected OR expression"),
    }
}

#[test]
fn test_try_parse_single_boolean_term() {
    match try_parse_single_boolean_term("active?").unwrap() {
        FilterExpr::FieldTruthy(field) => assert_eq!(field.parts, vec!["active"]),
        _ => panic!("Expected FieldTruthy"),
    }
    match try_parse_single_boolean_term("!suspended").unwrap() {
        FilterExpr::Not(inner) => match inner.as_ref() {
            FilterExpr::FieldTruthy(field) => assert_eq!(field.parts, vec!["suspended"]),
            _ => panic!("Expected FieldTruthy inside NOT"),
        },
        _ => panic!("Expected NOT expression"),
    }
    match try_parse_single_boolean_term("age > 25").unwrap() {
        FilterExpr::Comparison { field, op, value } => {
            assert_eq!(field.parts, vec!["age"]);
            assert!(matches!(op, ComparisonOp::GreaterThan));
            assert_eq!(value, FilterValue::Number("25".to_string()));
        }
        _ => panic!("Expected comparison"),
    }
}

#[test]
fn test_try_parse_single_boolean_term_rejects_bare_fields() {
    assert!(try_parse_single_boolean_term("active").is_err());
    assert!(try_parse_single_boolean_term("user.verified").is_err());
    assert!(try_parse_single_boolean_term("field_name").is_err());
}

#[test]
fn test_parse_simple_filter() {
    match parse_simple_filter("age > 25").unwrap() {
        FilterExpr::Comparison { field, op, value } => {
            assert_eq!(field.parts, vec!["age"]);
            assert!(matches!(op, ComparisonOp::GreaterThan));
            assert_eq!(value, FilterValue::Number("25".to_string()));
        }
        _ => panic!("Expected comparison"),
    }
    match parse_simple_filter("name == \"Alice\"").unwrap() {
        FilterExpr::Comparison { field, op, value } => {
            assert_eq!(field.parts, vec!["name"]);
            assert!(matches!(op, ComparisonOp::Equal));
            assert!(matches!(value, FilterValue::String(s) if s == "Alice"));
        }
        _ => panic!("Expected comparison"),
    }
    match parse_simple_filter("active == true").unwrap() {
        FilterExpr::Comparison { field, op, value } => {
            assert_eq!(field.parts, vec!["active"]);
            assert!(matches!(op, ComparisonOp::Equal));
            assert!(matches!(value, FilterValue::Boolean(true)));
        }
        _ => panic!("Expected comparison"),
    }
}

#[test]
fn test_try_fallback_parsing() {
    let result = try_fallback_parsing("$name").unwrap();
    assert!(result.template.is_some());
    let result = try_fallback_parsing("user.email").unwrap();
    assert!(result.field_selector.is_some());
    let result = try_fallback_parsing("active? && verified?").unwrap();
    assert!(result.filter.is_some());
    let result = try_fallback_parsing("age > 25 {Hello ${name}}").unwrap();
    assert!(result.filter.is_some());
    assert!(result.template.is_some());
}

#[test]
fn test_edge_cases_and_error_handling() {
    assert!(try_as_field_selector("").is_err());
    assert!(try_as_field_selector("age > 25").is_err());
    assert!(try_as_field_selector("name == value").is_err());
    assert!(try_boolean_with_truthy_fields("just_a_field").is_err());
    assert!(parse_simple_filter("age >").is_err());
    assert!(parse_simple_filter("name").is_err());
}

#[test]
fn test_numeric_vs_variable_distinction() {
    let template = try_simple_template_patterns("${0}").unwrap().template.unwrap();
    match &template.items[0] {
        TemplateItem::Field(field) => assert_eq!(field.parts, vec!["$0"]),
        _ => panic!("Expected ${{0}} to map to $0 field"),
    }
    let template = try_simple_template_patterns("${1}").unwrap().template.unwrap();
    match &template.items[0] {
        TemplateItem::Field(field) => assert_eq!(field.parts, vec!["1"]),
        _ => panic!("Expected ${{1}} to map to '1' field"),
    }
    let template = try_simple_template_patterns("$1").unwrap().template.unwrap();
    match &template.items[0] {
        TemplateItem::Literal(text) => assert_eq!(text, "$1"),
        _ => panic!("Expected $1 to be literal"),
    }
}

#[test]
fn fallback_refusals_name_their_reason() {
    assert_eq!(
        try_simple_template_patterns("Hello $name").unwrap_err(),
        "Bare interpolated text not allowed. Use [Hello ${name}] or {Hello ${name}} instead"
    );
    assert_eq!(try_simple_template_patterns("plain").unwrap_err(), "Not a simple template pattern");
    assert_eq!(
        try_boolean_with_truthy_fields("a? && b? && c?").unwrap_err(),
        "Complex AND expressions not supported"
    );
    assert_eq!(parse_simple_filter("a <> 1").unwrap_err(), "Unknown operator");
    let err = try_fallback_parsing("== ==").unwrap_err();
    assert!(err.starts_with("Could not parse '== =='. Try:"));
    match parse_simple_filter("x ~ some words here").unwrap() {
        FilterExpr::Comparison { op, value, .. } => {
            assert!(matches!(op, ComparisonOp::Contains));
            assert_eq!(value, FilterValue::String("some words here".to_string()));
        }
        _ => panic!("Expected comparison"),
    }
}
