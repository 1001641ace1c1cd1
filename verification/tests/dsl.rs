use parsm::parser_registry::JsonParser;
use parsm::dsl::{parse_command, parse_separate_expressions, DSLParser, ParsedDSL};
use parsm::filter::{ComparisonOp, FieldPath, FilterEngine, FilterExpr, FilterValue, Template, TemplateItem};
use parsm::value::JsonValue;

fn j(text: &str) -> JsonValue {
    JsonParser.parse(text).unwrap()
}

#[test]
fn test_parse_command_field_selector() {
    let result = parse_command("name").unwrap();
    assert!(result.field_selector.is_some());
    assert!(result.filter.is_none());
    assert!(result.template.is_none());
    let field = result.field_selector.unwrap();
    assert_eq!(field.parts, vec!["name"]);
    assert_eq!(field.get_value(&j(r#"{"name": "Alice"}"#)), Some(&j(r#""Alice""#)));
}

#[test]
fn test_parse_command_simple_filter() {
    let result = parse_command("age > 25").unwrap();
    assert!(result.filter.is_some());
    assert!(result.field_selector.is_none());
    assert!(result.template.is_none());
}

#[test]
fn test_parse_command_simple_template() {
    let result = parse_command("{${name}}").unwrap();
    assert!(result.template.is_some());
    assert!(result.filter.is_none());
    assert!(result.field_selector.is_none());
}

#[test]
fn test_parse_command_combined_filter_template() {
    let result = parse_command("age > 25 {${name}}").unwrap();
    assert!(result.filter.is_some());
    assert!(result.template.is_some());
    assert!(result.field_selector.is_none());
}

#[test]
fn mod_test_new_template_syntax() {
    let template = parse_command("{${name}}").unwrap().template.unwrap();
    assert_eq!(template.render(&j(r#"{"name": "Alice"}"#)), "Alice");
    let template = parse_command("[${name}]").unwrap().template.unwrap();
    assert_eq!(template.render(&j(r#"{"name": "Alice"}"#)), "Alice");
    let template = parse_command("$name").unwrap().template.unwrap();
    assert_eq!(template.render(&j(r#"{"name": "Alice"}"#)), "Alice");
    let template = parse_command("[Hello ${name}!]").unwrap().template.unwrap();
    assert_eq!(template.render(&j(r#"{"name": "Alice"}"#)), "Hello Alice!");
}

#[test]
fn mod_test_field_truthy_parsing() {
    let filter = parse_command("active?").unwrap().filter.unwrap();
    assert!(FilterEngine::evaluate(&filter, &j(r#"{"active": true}"#)));
    assert!(!FilterEngine::evaluate(&filter, &j(r#"{"active": false}"#)));
    let filter = parse_command("user.settings.notifications?").unwrap().filter.unwrap();
    assert!(FilterEngine::evaluate(&filter, &j(r#"{"user": {"settings": {"notifications": true}}}"#)));
    assert!(!FilterEngine::evaluate(&filter, &j(r#"{"user": {"settings": {"notifications": false}}}"#)));
}

#[test]
fn test_explicit_truthy_in_boolean_expressions() {
    let filter = parse_command("active? && verified?").unwrap().filter.unwrap();
    assert!(FilterEngine::evaluate(&filter, &j(r#"{"active": true, "verified": true}"#)));
    assert!(!FilterEngine::evaluate(&filter, &j(r#"{"active": true, "verified": false}"#)));
    let filter = parse_command("premium? || admin?").unwrap().filter.unwrap();
    assert!(FilterEngine::evaluate(&filter, &j(r#"{"premium": true, "admin": false}"#)));
    assert!(!FilterEngine::evaluate(&filter, &j(r#"{"premium": false, "admin": false}"#)));
    let filter = parse_command("!suspended?").unwrap().filter.unwrap();
    assert!(FilterEngine::evaluate(&filter, &j(r#"{"suspended": false}"#)));
    assert!(!FilterEngine::evaluate(&filter, &j(r#"{"suspended": true}"#)));
}

#[test]
fn test_not_operator_without_truthy() {
    assert!(parse_command("!active").is_err());
    assert!(parse_command("!!verified").is_err());
    let result = parse_command("!active?").unwrap();
    assert!(result.filter.is_some());
    let result = parse_command("!active? && !suspended?").unwrap();
    assert!(result.filter.is_some());
}

#[test]
fn bare_negation_names_the_fix() {
    let err = parse_command("!active").unwrap_err();
    assert!(err.contains("'!active?'"), "{err}");
}

#[test]
fn test_mixed_syntax() {
    assert!(parse_command("active? && age > 18").unwrap().filter.is_some());
    assert!(parse_command("name == \"Alice\" || admin?").unwrap().filter.is_some());
    assert!(parse_command("(premium? || credits > 100) && !blacklisted?").unwrap().filter.is_some());
}

#[test]
fn mod_test_in_operator() {
    let result = parse_command("status in [\"active\", \"pending\"]");
    assert!(result.is_err(), "IN operator should not be supported");
}

#[test]
fn test_real_world_scenarios() {
    assert!(parse_command("authenticated? && !banned?").unwrap().filter.is_some());
    assert!(parse_command("published? && rating >= 4.0").unwrap().filter.is_some());
    assert!(parse_command("age >= 18 && premium_member?").unwrap().filter.is_some());
}

#[test]
fn test_existing_template_preserved() {
    assert!(parse_command("username").unwrap().field_selector.is_some());
    assert!(parse_command("user.profile.bio").unwrap().field_selector.is_some());
    assert!(parse_command("\"field with spaces\"").unwrap().field_selector.is_some());
    assert!(parse_command("$name").unwrap().template.is_some());
    assert!(parse_command("{${user.name}}").unwrap().template.is_some());
    assert!(parse_command("[Hello ${name}!]").unwrap().template.is_some());
    assert!(parse_command("age >= 21").unwrap().filter.is_some());
    assert!(parse_command("status != \"deleted\"").unwrap().filter.is_some());
    assert!(parse_command("score > 0.5").unwrap().filter.is_some());
    let result = parse_command("score > 90 {Congrats ${name}!}").unwrap();
    assert!(result.filter.is_some() && result.template.is_some());
}

#[test]
fn mod_test_conservative_boolean_parsing() {
    let test_fields = ["a", "b", "field_1", "field_2", "name", "active", "x", "y", "z"];
    for &field1 in &test_fields {
        for &field2 in &test_fields {
            let command = format!("{field1}? && {field2}?");
            match parse_command(&command) {
                Ok(result) => assert!(result.filter.is_some(), "{command} should parse as filter"),
                Err(e) => panic!("{command} should work with ? syntax: {e}"),
            }
            let command = format!("{field1} && {field2}");
            if let Ok(result) = parse_command(&command) {
                assert!(result.filter.is_none(), "{command} should NOT parse as filter");
            }
        }
    }
    for &field in &test_fields {
        let command = format!("!{field}?");
        match parse_command(&command) {
            Ok(result) => assert!(result.filter.is_some(), "{command} should parse as filter"),
            Err(e) => panic!("{command} should work: {e}"),
        }
    }
}

#[test]
fn test_template_variable_edge_cases() {
    let template = parse_command("${0}").unwrap().template.unwrap();
    assert_eq!(template.render(&j(r#"{"$0": "original text"}"#)), "original text");
    let template = parse_command("$0").unwrap().template.unwrap();
    assert_eq!(template.render(&j(r#"{"$0": "original text"}"#)), "$0");
    let template = parse_command("$20").unwrap().template.unwrap();
    assert_eq!(template.render(&j("{}")), "$20");
    let template = parse_command("${1}").unwrap().template.unwrap();
    assert_eq!(template.render(&j(r#"{"1": "first field"}"#)), "first field");
    for amount in ["$1", "$5", "$10", "$999"] {
        let template = parse_command(amount).unwrap().template.unwrap();
        assert_eq!(template.render(&j("{}")), amount);
    }
    for (reference, field) in [("${2}", "2"), ("${10}", "10"), ("${100}", "100")] {
        let template = parse_command(reference).unwrap().template.unwrap();
        let data = j(&format!("{{\"{field}\": \"value\"}}"));
        assert_eq!(template.render(&data), "value");
    }
}

#[test]
fn test_mixed_numeric_template_patterns() {
    let template = parse_command("{I have $20 and ${name} has $100}").unwrap().template.unwrap();
    assert_eq!(template.render(&j(r#"{"name": "Bob"}"#)), "I have $20 and Bob has $100");
    let template = parse_command("[Hello ${name}, you owe $25]").unwrap().template.unwrap();
    assert_eq!(template.render(&j(r#"{"name": "Eve"}"#)), "Hello Eve, you owe $25");
}

#[test]
fn mod_test_quoted_string_literals() {
    let result = parse_command("\"Alice\"").unwrap();
    assert!(result.filter.is_none());
    assert!(result.template.is_none());
    let field_selector = result.field_selector.unwrap();
    assert_eq!(field_selector.get_value(&j(r#"{"Alice": "found"}"#)), Some(&j(r#""found""#)));
    let field_selector = parse_command("'Alice'").unwrap().field_selector.unwrap();
    assert_eq!(field_selector.get_value(&j(r#"{"Alice": "found"}"#)), Some(&j(r#""found""#)));
}

#[test]
fn test_error_cases() {
    let test_cases = vec!["active && verified", "field || other", "(name && active)"];
    for input in test_cases {
        match parse_command(input) {
            Ok(result) => {
                if result.filter.is_some() {
                    panic!("{input} should not parse as filter - ambiguous");
                }
            }
            Err(msg) => {
                assert!(
                    msg.contains("?")
                        || msg.contains("truthy")
                        || msg.contains("comparison")
                        || msg.contains("explicit")
                        || msg.contains("field name")
                        || msg.contains("Template"),
                    "Error for '{input}' should be helpful: {msg}"
                );
            }
        }
    }
}

#[test]
fn mod_test_complex_filters() {
    let result = parse_command("name == \"Alice\" && age > 25").unwrap();
    assert!(matches!(result.filter, Some(FilterExpr::And(_, _))));
}

#[test]
fn mod_test_nested_field_access() {
    let filter = parse_command("user.email == \"alice@example.com\"").unwrap().filter.unwrap();
    assert!(FilterEngine::evaluate(&filter, &j(r#"{"user": {"email": "alice@example.com"}}"#)));
    assert!(!FilterEngine::evaluate(&filter, &j(r#"{"user": {"email": "bob@example.com"}}"#)));
    let template = parse_command("{${user.name}}").unwrap().template.unwrap();
    assert_eq!(template.render(&j(r#"{"user": {"name": "Alice"}}"#)), "Alice");
    let field = parse_command("user.profile.bio").unwrap().field_selector.unwrap();
    assert_eq!(
        field.get_value(&j(r#"{"user": {"profile": {"bio": "hi"}}}"#)),
        Some(&j(r#""hi""#))
    );
}

#[test]
fn mod_test_comprehensive_disambiguation() {
    let data = j(r#"{"name": "Alice"}"#);
    let result = parse_command("name").unwrap();
    assert!(result.filter.is_none());
    assert!(result.template.is_none());
    assert_eq!(result.field_selector.unwrap().get_value(&data), Some(&j(r#""Alice""#)));

    let result = parse_command("name?").unwrap();
    assert!(result.field_selector.is_none());
    assert!(result.template.is_none());
    assert!(FilterEngine::evaluate(&result.filter.unwrap(), &data));
    assert!(!FilterEngine::evaluate(
        &parse_command("name?").unwrap().filter.unwrap(),
        &j(r#"{"name": ""}"#)
    ));

    let result = parse_command("$name").unwrap();
    assert!(result.filter.is_none());
    assert!(result.field_selector.is_none());
    assert_eq!(result.template.unwrap().render(&data), "Alice");

    let result = parse_command("{${name}}").unwrap();
    assert!(result.filter.is_none());
    assert!(result.field_selector.is_none());
    assert_eq!(result.template.unwrap().render(&data), "Alice");

    let result = parse_command("name == \"Alice\"").unwrap();
    assert!(result.field_selector.is_none());
    assert!(result.template.is_none());
    assert!(FilterEngine::evaluate(&result.filter.unwrap(), &data));
    assert!(!FilterEngine::evaluate(
        &parse_command("name == \"Alice\"").unwrap().filter.unwrap(),
        &j(r#"{"name": "Bob"}"#)
    ));
}

#[test]
fn mod_test_edge_cases() {
    assert!(parse_command("{}").unwrap().template.is_some());
    assert!(parse_command("[]").unwrap().template.is_some());
    assert!(parse_command("a").unwrap().field_selector.is_some());
    assert!(parse_command("1").unwrap().field_selector.is_some());
}

#[test]
fn mod_test_bracketed_template_syntax() {
    let template = parse_command("[${name}]").unwrap().template.unwrap();
    assert_eq!(template.render(&j(r#"{"name": "Alice"}"#)), "Alice");
    let template = parse_command("[Hello ${name}!]").unwrap().template.unwrap();
    assert_eq!(template.render(&j(r#"{"name": "Alice"}"#)), "Hello Alice!");
    let result = parse_command("age > 25 [User: ${name}]").unwrap();
    let filter = result.filter.unwrap();
    let template = result.template.unwrap();
    let data = j(r#"{"age": 30, "name": "Alice"}"#);
    assert!(FilterEngine::evaluate(&filter, &data));
    assert_eq!(template.render(&data), "User: Alice");
    assert!(!FilterEngine::evaluate(&filter, &j(r#"{"age": 10, "name": "Alice"}"#)));
}

#[test]
fn test_parse_filter_expr() {
    match DSLParser::parse_dsl("age > 25").unwrap().filter.unwrap() {
        FilterExpr::Comparison { field, op, value } => {
            assert_eq!(field.parts, vec!["age"]);
            assert!(matches!(op, ComparisonOp::GreaterThan));
            assert_eq!(value, FilterValue::Number("25".to_string()));
        }
        _ => panic!("Expected comparison"),
    }
}

#[test]
fn test_parse_boolean_and() {
    match DSLParser::parse_dsl("active? && verified?").unwrap().filter.unwrap() {
        FilterExpr::And(left, right) => match (left.as_ref(), right.as_ref()) {
            (FilterExpr::FieldTruthy(l), FilterExpr::FieldTruthy(r)) => {
                assert_eq!(l.parts, vec!["active"]);
                assert_eq!(r.parts, vec!["verified"]);
            }
            _ => panic!("Expected FieldTruthy expressions"),
        },
        _ => panic!("Expected AND expression"),
    }
}

#[test]
fn test_parse_boolean_or() {
    match DSLParser::parse_dsl("premium? || admin?").unwrap().filter.unwrap() {
        FilterExpr::Or(left, right) => match (left.as_ref(), right.as_ref()) {
            (FilterExpr::FieldTruthy(l), FilterExpr::FieldTruthy(r)) => {
                assert_eq!(l.parts, vec!["premium"]);
                assert_eq!(r.parts, vec!["admin"]);
            }
            _ => panic!("Expected FieldTruthy expressions"),
        },
        _ => panic!("Expected OR expression"),
    }
}

#[test]
fn test_parse_not_expression() {
    match DSLParser::parse_dsl("!suspended?").unwrap().filter.unwrap() {
        FilterExpr::Not(inner) => match inner.as_ref() {
            FilterExpr::FieldTruthy(field) => assert_eq!(field.parts, vec!["suspended"]),
            _ => panic!("Expected FieldTruthy inside NOT"),
        },
        _ => panic!("Expected NOT expression"),
    }
}

#[test]
fn test_parse_field_truthy() {
    match DSLParser::parse_dsl("active?").unwrap().filter.unwrap() {
        FilterExpr::FieldTruthy(field) => assert_eq!(field.parts, vec!["active"]),
        _ => panic!("Expected FieldTruthy"),
    }
}

#[test]
fn filter_parser_test_comparison_operators() {
    let test_cases = vec![
        ("age == 25", ComparisonOp::Equal),
        ("age != 25", ComparisonOp::NotEqual),
        ("age > 25", ComparisonOp::GreaterThan),
        ("age >= 25", ComparisonOp::GreaterThanOrEqual),
        ("age < 25", ComparisonOp::LessThan),
        ("age <= 25", ComparisonOp::LessThanOrEqual),
        ("name *= \"text\"", ComparisonOp::Contains),
        ("name ^= \"prefix\"", ComparisonOp::StartsWith),
        ("name $= \"suffix\"", ComparisonOp::EndsWith),
    ];
    for (input, expected_op) in test_cases {
        match DSLParser::parse_dsl(input).unwrap().filter {
            Some(FilterExpr::Comparison { op, .. }) => assert_eq!(op, expected_op),
            _ => panic!("Expected comparison for: {input}"),
        }
    }
    assert!(DSLParser::parse_dsl("name ~= /pattern/").unwrap().filter.is_some());
}

#[test]
fn test_complex_expressions() {
    let result = DSLParser::parse_dsl("(age > 18 && age < 65) || retired?").unwrap().filter.unwrap();
    assert!(matches!(result, FilterExpr::Or(_, _)));
    let result = DSLParser::parse_dsl("active? && score >= 80").unwrap().filter.unwrap();
    assert!(matches!(result, FilterExpr::And(_, _)));
    let result = DSLParser::parse_dsl("!(suspended? || banned?)").unwrap().filter.unwrap();
    assert!(matches!(result, FilterExpr::Not(_)));
}

#[test]
fn test_value_parsing() {
    match DSLParser::parse_dsl("name == \"Alice\"").unwrap().filter.unwrap() {
        FilterExpr::Comparison { value: FilterValue::String(s), .. } => assert_eq!(s, "Alice"),
        _ => panic!("Expected string"),
    }
    match DSLParser::parse_dsl("age == 25.5").unwrap().filter.unwrap() {
        FilterExpr::Comparison { value: FilterValue::Number(n), .. } => assert_eq!(n, "25.5"),
        _ => panic!("Expected number"),
    }
    match DSLParser::parse_dsl("active == true").unwrap().filter.unwrap() {
        FilterExpr::Comparison { value: FilterValue::Boolean(b), .. } => assert!(b),
        _ => panic!("Expected boolean"),
    }
    match DSLParser::parse_dsl("data == null").unwrap().filter.unwrap() {
        FilterExpr::Comparison { value: FilterValue::Null, .. } => {}
        _ => panic!("Expected null"),
    }
}

#[test]
fn test_nested_field_paths() {
    match DSLParser::parse_dsl("user.profile.email == \"test@example.com\"").unwrap().filter.unwrap() {
        FilterExpr::Comparison { field, .. } => assert_eq!(field.parts, vec!["user", "profile", "email"]),
        _ => panic!("Expected comparison"),
    }
}

#[test]
fn test_regex_literals() {
    match DSLParser::parse_dsl("name ~= /[A-Z][a-z]+/").unwrap().filter.unwrap() {
        FilterExpr::Regex { pattern, flags, .. } => {
            assert_eq!(pattern, "[A-Z][a-z]+");
            assert_eq!(flags, None);
        }
        _ => panic!("Expected a pattern match"),
    }
}

#[test]
fn test_regex_literal_with_flags() {
    match DSLParser::parse_dsl("email ~= /alice/i").unwrap().filter.unwrap() {
        FilterExpr::Regex { pattern, flags, .. } => {
            assert_eq!(pattern, "alice");
            assert_eq!(flags.as_deref(), Some("i"));
        }
        _ => panic!("Expected a pattern match"),
    }
}

#[test]
fn tilde_contains_rejects_a_regex_literal() {
    let err = DSLParser::parse_dsl("name ~ /A.*e/").unwrap_err();
    assert!(err.contains("~="), "{err}");
}

#[test]
fn test_parse_dsl_field_selector() {
    let result = DSLParser::parse_dsl("name").unwrap();
    assert!(result.field_selector.is_some());
    assert!(result.filter.is_none());
    assert!(result.template.is_none());
    let field = result.field_selector.unwrap();
    assert_eq!(field.parts, vec!["name"]);
}

#[test]
fn test_parse_template_only() {
    let template = DSLParser::parse_dsl("$name").unwrap().template.unwrap();
    assert_eq!(template.items.len(), 1);
    assert!(matches!(&template.items[0], TemplateItem::Field(_)));
    assert_eq!(template.render(&j(r#"{"name": "Alice"}"#)), "Alice");
}

#[test]
fn test_parse_field_selector_only() {
    let field = DSLParser::parse_dsl("user.email").unwrap().field_selector.unwrap();
    assert_eq!(field.parts, vec!["user", "email"]);
    assert_eq!(field.get_value(&j(r#"{"user": {"email": "a@b.com"}}"#)), Some(&j(r#""a@b.com""#)));
}

#[test]
fn test_complex_boolean_expressions() {
    let filter = DSLParser::parse_dsl("(active? && verified?) || admin?").unwrap().filter.unwrap();
    assert!(FilterEngine::evaluate(&filter, &j(r#"{"active": true, "verified": true, "admin": false}"#)));
    assert!(FilterEngine::evaluate(&filter, &j(r#"{"active": false, "verified": false, "admin": true}"#)));
    assert!(!FilterEngine::evaluate(&filter, &j(r#"{"active": false, "verified": false, "admin": false}"#)));
    let filter = DSLParser::parse_dsl("!suspended? && (premium? || credits > 100)").unwrap().filter.unwrap();
    assert!(FilterEngine::evaluate(&filter, &j(r#"{"suspended": false, "premium": true, "credits": 0}"#)));
    assert!(!FilterEngine::evaluate(&filter, &j(r#"{"suspended": true, "premium": true, "credits": 1000}"#)));
    assert!(!FilterEngine::evaluate(&filter, &j(r#"{"suspended": false, "premium": false, "credits": 50}"#)));
}

#[test]
fn test_value_types() {
    let filter = DSLParser::parse_dsl("name == \"Alice\"").unwrap().filter.unwrap();
    assert!(FilterEngine::evaluate(&filter, &j(r#"{"name": "Alice"}"#)));
    assert!(!FilterEngine::evaluate(&filter, &j(r#"{"name": "Bob"}"#)));
    let filter = DSLParser::parse_dsl("age == 25").unwrap().filter.unwrap();
    assert!(FilterEngine::evaluate(&filter, &j(r#"{"age": 25}"#)));
    assert!(!FilterEngine::evaluate(&filter, &j(r#"{"age": 30}"#)));
    let filter = DSLParser::parse_dsl("active == true").unwrap().filter.unwrap();
    assert!(FilterEngine::evaluate(&filter, &j(r#"{"active": true}"#)));
    assert!(!FilterEngine::evaluate(&filter, &j(r#"{"active": false}"#)));
    let filter = DSLParser::parse_dsl("data == null").unwrap().filter.unwrap();
    assert!(FilterEngine::evaluate(&filter, &j(r#"{"data": null}"#)));
    assert!(!FilterEngine::evaluate(&filter, &j(r#"{"data": "present"}"#)));
}

#[test]
fn quoted_selector_with_dots_is_one_key() {
    let field = DSLParser::parse_dsl("\"user.name\"").unwrap().field_selector.unwrap();
    assert_eq!(field.parts, vec!["user.name"]);
    assert_eq!(field.get_value(&j(r#"{"user.name": "Alice"}"#)), Some(&j(r#""Alice""#)));
}

#[test]
fn quoted_selector_unescapes_content() {
    let field = DSLParser::parse_dsl(r#""say \"hi\"""#).unwrap().field_selector.unwrap();
    assert_eq!(field.get_value(&j(r#"{"say \"hi\"": "found"}"#)), Some(&j(r#""found""#)));
}

fn template_of(input: &str) -> Vec<TemplateItem> {
    DSLParser::parse_dsl(input).unwrap().template.unwrap().items
}

fn field(parts: &[&str]) -> TemplateItem {
    TemplateItem::Field(FieldPath::new(parts.iter().map(|p| p.to_string()).collect()))
}

fn lit(text: &str) -> TemplateItem {
    TemplateItem::Literal(text.to_string())
}

#[test]
fn interpolated_literal_stops_at_the_variable_boundary() {
    assert_eq!(template_of("[Hello $name.]"), vec![lit("Hello "), field(&["name"]), lit(".")]);
}

#[test]
fn braced_variable_zero_maps_to_source() {
    assert_eq!(template_of("{${0}}"), vec![field(&["$0"])]);
}

#[test]
fn braced_variable_numeric_field_stays_as_is() {
    assert_eq!(template_of("{${1}}"), vec![field(&["1"])]);
}

#[test]
fn mixed_literal_and_field_content() {
    assert_eq!(
        template_of("[ID: ${user_id}, Amount: $20, Name: ${name}]"),
        vec![lit("ID: "), field(&["user_id"]), lit(", Amount: $20, Name: "), field(&["name"])]
    );
}

#[test]
fn nested_field_path_variable() {
    assert_eq!(template_of("{${user.profile.name}}"), vec![field(&["user", "profile", "name"])]);
}

#[test]
fn empty_braces_and_brackets_are_empty_templates() {
    assert_eq!(template_of("{}"), Vec::new());
    assert_eq!(template_of("[]"), Vec::new());
}

#[test]
fn literal_only_content() {
    assert_eq!(template_of("{Hello World}"), vec![lit("Hello World")]);
}

#[test]
fn balanced_bracket_span_is_literal_but_still_interpolates() {
    assert_eq!(
        template_of("[[${level}] ${msg}]"),
        vec![lit("["), field(&["level"]), lit("]"), lit(" "), field(&["msg"])]
    );
}

#[test]
fn braced_template_accepts_conditionals() {
    let items = template_of("{${a?x:y}}");
    assert!(matches!(items[0], TemplateItem::Conditional { .. }));
    let template = DSLParser::parse_dsl("{${a?x:y}}").unwrap().template.unwrap();
    assert_eq!(template.render(&j(r#"{"a": true}"#)), "x");
    assert_eq!(template.render(&j(r#"{"a": false}"#)), "y");
}

#[test]
fn escaped_brackets_are_literal() {
    assert_eq!(template_of(r"[\[x\]]"), vec![lit("["), lit("x"), lit("]")]);
}

#[test]
fn unbalanced_bracket_gets_a_hint() {
    let err = parse_command("[a ] b]").unwrap_err();
    assert!(err.contains("'\\]'"), "{err}");
    let err = parse_command("[a [b]").unwrap_err();
    assert!(err.contains("'\\['"), "{err}");
}

#[test]
fn test_parsed_dsl_new() {
    let parsed = ParsedDSL::new();
    assert!(parsed.filter.is_none());
    assert!(parsed.template.is_none());
    assert!(parsed.field_selector.is_none());
}

#[test]
fn test_parsed_dsl_with_components() {
    let mut parsed = ParsedDSL::new();

    parsed.filter = Some(FilterExpr::Comparison {
        field: FieldPath::new(vec!["name".to_string()]),
        op: ComparisonOp::Equal,
        value: FilterValue::String("Alice".to_string()),
    });
    assert!(parsed.filter.is_some());

    parsed.template = Some(Template {
        items: vec![TemplateItem::Literal("Hello".to_string())],
    });
    assert!(parsed.template.is_some());

    parsed.field_selector = Some(FieldPath::new(vec!["name".to_string()]));
    assert!(parsed.field_selector.is_some());
}

#[test]
fn test_parsed_dsl_default() {
    let parsed = ParsedDSL::default();
    assert!(parsed.filter.is_none());
    assert!(parsed.template.is_none());
    assert!(parsed.field_selector.is_none());
}

#[test]
fn separate_arguments_keep_their_kinds() {
    let dsl = parse_separate_expressions(Some("a > 1"), None).unwrap();
    assert!(dsl.filter.is_some());
    assert!(dsl.template.is_none());
    let dsl = parse_separate_expressions(Some(""), Some("[${a}]")).unwrap();
    assert!(dsl.filter.is_none());
    assert!(dsl.template.is_some());
    let err = parse_separate_expressions(Some("name"), None).unwrap_err();
    assert_eq!(err, "argument 1 ('name') is not a filter expression - it parsed as a field selector");
    let err = parse_separate_expressions(None, Some("a > 1")).unwrap_err();
    assert_eq!(err, "argument 2 ('a > 1') is not a template - it parsed as a filter expression");
}

#[test]
fn empty_expression_parses_to_nothing() {
    let dsl = parse_command("   ").unwrap();
    assert!(dsl.filter.is_none() && dsl.template.is_none() && dsl.field_selector.is_none());
}

#[test]
fn test_parse_dsl_simple_filter() {
    let result = DSLParser::parse_dsl("age > 25").unwrap();
    assert!(result.filter.is_some());
    assert!(result.field_selector.is_none());
    assert!(result.template.is_none());
}

#[test]
fn test_parse_dsl_simple_template() {
    let result = DSLParser::parse_dsl("{${name}}").unwrap();
    assert!(result.template.is_some());
    assert!(result.filter.is_none());
    assert!(result.field_selector.is_none());
}

#[test]
fn test_parse_filter_only() {
    let filter = DSLParser::parse_dsl("age > 25").unwrap().filter.unwrap();
    match &filter {
        FilterExpr::Comparison { field, op, .. } => {
            assert_eq!(field.parts, vec!["age"]);
            assert!(matches!(op, ComparisonOp::GreaterThan));
        }
        _ => panic!("Expected comparison"),
    }
    assert!(FilterEngine::evaluate(&filter, &j(r#"{"age": 30}"#)));
    assert!(!FilterEngine::evaluate(&filter, &j(r#"{"age": 10}"#)));
}

#[test]
fn grammar_test_field_truthy_parsing() {
    let filter = DSLParser::parse_dsl("active?").unwrap().filter.unwrap();
    assert!(FilterEngine::evaluate(&filter, &j(r#"{"active": true}"#)));
    assert!(!FilterEngine::evaluate(&filter, &j(r#"{"active": false}"#)));
}

#[test]
fn test_not_operator() {
    let filter = DSLParser::parse_dsl("!active?").unwrap().filter.unwrap();
    assert!(FilterEngine::evaluate(&filter, &j(r#"{"active": false}"#)));
    assert!(!FilterEngine::evaluate(&filter, &j(r#"{"active": true}"#)));
}

#[test]
fn test_boolean_and_expression() {
    let filter = DSLParser::parse_dsl("active? && verified?").unwrap().filter.unwrap();
    assert!(FilterEngine::evaluate(&filter, &j(r#"{"active": true, "verified": true}"#)));
    assert!(!FilterEngine::evaluate(&filter, &j(r#"{"active": true, "verified": false}"#)));
    assert!(!FilterEngine::evaluate(&filter, &j(r#"{"active": false, "verified": true}"#)));
}

#[test]
fn test_boolean_or_expression() {
    let filter = DSLParser::parse_dsl("premium? || admin?").unwrap().filter.unwrap();
    assert!(FilterEngine::evaluate(&filter, &j(r#"{"premium": true, "admin": false}"#)));
    assert!(FilterEngine::evaluate(&filter, &j(r#"{"premium": false, "admin": true}"#)));
    assert!(!FilterEngine::evaluate(&filter, &j(r#"{"premium": false, "admin": false}"#)));
}

#[test]
fn grammar_test_in_operator() {
    let result = DSLParser::parse_dsl("status in [\"active\", \"pending\"]");
    assert!(result.is_err(), "IN operator should not be supported");
}

#[test]
fn grammar_test_comparison_operators() {
    let test_cases = vec![
        ("age == 25", ComparisonOp::Equal),
        ("age != 25", ComparisonOp::NotEqual),
        ("age > 25", ComparisonOp::GreaterThan),
        ("age >= 25", ComparisonOp::GreaterThanOrEqual),
        ("age < 25", ComparisonOp::LessThan),
        ("age <= 25", ComparisonOp::LessThanOrEqual),
        ("name *= \"text\"", ComparisonOp::Contains),
        ("name ^= \"prefix\"", ComparisonOp::StartsWith),
        ("name $= \"suffix\"", ComparisonOp::EndsWith),
    ];
    for (input, expected_op) in test_cases {
        let result = DSLParser::parse_dsl(input).unwrap();
        assert!(result.filter.is_some());
        match result.filter {
            Some(FilterExpr::Comparison { op, .. }) => {
                assert!(std::mem::discriminant(&op) == std::mem::discriminant(&expected_op));
            }
            _ => panic!("Expected comparison for: {input}"),
        }
    }
    let result = DSLParser::parse_dsl("name ~= /pattern/").unwrap();
    assert!(result.filter.is_some());
}

#[test]
fn test_quoted_field_selectors() {
    let field = DSLParser::parse_dsl("\"field with spaces\"").unwrap().field_selector.unwrap();
    assert_eq!(field.get_value(&j(r#"{"field with spaces": "found"}"#)), Some(&j(r#""found""#)));
}

#[test]
fn grammar_test_nested_field_access() {
    let field = DSLParser::parse_dsl("user.profile.email").unwrap().field_selector.unwrap();
    assert_eq!(
        field.get_value(&j(r#"{"user": {"profile": {"email": "a@b.com"}}}"#)),
        Some(&j(r#""a@b.com""#))
    );
}

#[test]
fn test_combined_filter_template() {
    let result = DSLParser::parse_dsl("age > 25 {${name}}").unwrap();
    assert!(result.filter.is_some());
    assert!(result.template.is_some());
}

#[test]
fn test_parse_in_expression() {
    let result = parsm::dsl::FilterParser::parse_filter_expr("status in [\"active\", \"pending\"]");
    assert!(result.is_err(), "IN operator should no longer be supported");
}

#[test]
fn filter_and_template_parsers_take_whole_inputs() {
    use_filter_parser();
    use_template_parser();
}

fn use_filter_parser() {
    let f = parsm::dsl::FilterParser::parse_filter_expr("age > 25 && active?").unwrap();
    assert!(matches!(f, FilterExpr::And(_, _)));
    assert!(FilterEngine::evaluate(&f, &j(r#"{"age": 30, "active": true}"#)));
    assert!(parsm::dsl::FilterParser::parse_filter_expr("age > 25 {x}").is_err());
    assert!(parsm::dsl::FilterParser::parse_filter_expr("name").is_err());
    let err = parsm::dsl::FilterParser::parse_filter_expr("name ~ /A.*e/").unwrap_err();
    assert!(err.contains("~="));
}

fn use_template_parser() {
    let t = parsm::dsl::TemplateParser::parse_template_expr("{Hello ${name}!}").unwrap();
    assert_eq!(t.render(&j(r#"{"name": "Ann"}"#)), "Hello Ann!");
    let t = parsm::dsl::TemplateParser::parse_template_expr("$name").unwrap();
    assert_eq!(t.items.len(), 1);
    assert!(parsm::dsl::TemplateParser::parse_template_expr("age > 25").is_err());
}

#[test]
fn separate_argument_parse_failure_names_the_argument_and_the_fix() {
    let err = parse_separate_expressions(Some("!active"), Some("[${a}]")).unwrap_err();
    assert_eq!(
        err,
        "argument 1 ('!active'): bare '!active' is not supported - negation requires the explicit truthy check '!active?'"
    );
    let err = parse_separate_expressions(Some("a > 1"), Some("b")).unwrap_err();
    assert_eq!(err, "argument 2 ('b') is not a template - it parsed as a field selector");
    assert!(parse_separate_expressions(None, None).is_ok());
}
