use parsm::parser_registry::JsonParser;
use parsm::filter::{ComparisonOp, FieldPath, FilterEngine, FilterExpr, FilterValue, Template, TemplateItem};
use parsm::value::JsonValue;

fn j(text: &str) -> JsonValue {
    JsonParser.parse(text).unwrap()
}

fn cmp(name: &str, op: ComparisonOp, value: FilterValue) -> FilterExpr {
    FilterExpr::Comparison { field: FieldPath::single(name.to_string()), op, value }
}

#[test]
fn test_field_path_access() {
    let data = j(r#"{"name": "Alice", "user": {"id": 123, "email": "alice@example.com"}}"#);
    let name_path = FieldPath::single("name".to_string());
    assert_eq!(name_path.get_value(&data), Some(&j(r#""Alice""#)));
    let email_path = FieldPath::new(vec!["user".to_string(), "email".to_string()]);
    assert_eq!(email_path.get_value(&data), Some(&j(r#""alice@example.com""#)));
    let missing_path = FieldPath::single("missing".to_string());
    assert_eq!(missing_path.get_value(&data), None);
}

#[test]
fn test_simple_comparison() {
    let data = j(r#"{"name": "Alice", "age": 30}"#);
    let expr = cmp("name", ComparisonOp::Equal, FilterValue::String("Alice".to_string()));
    assert!(FilterEngine::evaluate(&expr, &data));
    let expr2 = cmp("age", ComparisonOp::GreaterThan, FilterValue::Number("25.0".to_string()));
    assert!(FilterEngine::evaluate(&expr2, &data));
}

#[test]
fn test_and_or_logic() {
    let data = j(r#"{"name": "Alice", "age": 30}"#);
    let name_check = cmp("name", ComparisonOp::Equal, FilterValue::String("Alice".to_string()));
    let age_check = cmp("age", ComparisonOp::GreaterThan, FilterValue::Number("25.0".to_string()));
    let and_expr = FilterExpr::And(Box::new(name_check), Box::new(age_check));
    assert!(FilterEngine::evaluate(&and_expr, &data));
}

#[test]
fn filter_test_template_rendering() {
    let data = j(r#"{"name": "Alice", "age": 30}"#);
    let template = Template {
        items: vec![
            TemplateItem::Field(FieldPath::single("name".to_string())),
            TemplateItem::Literal(" is ".to_string()),
            TemplateItem::Field(FieldPath::single("age".to_string())),
            TemplateItem::Literal(" years old".to_string()),
        ],
    };
    assert_eq!(template.render(&data), "Alice is 30 years old");
}

#[test]
fn array_indexes_and_plus_sign() {
    let data = j(r#"{"items": [10, 20, 30]}"#);
    let path = FieldPath::new(vec!["items".to_string(), "1".to_string()]);
    assert_eq!(path.get_value(&data), Some(&j("20")));
    let plus = FieldPath::new(vec!["items".to_string(), "+2".to_string()]);
    assert_eq!(plus.get_value(&data), Some(&j("30")));
    let out = FieldPath::new(vec!["items".to_string(), "3".to_string()]);
    assert_eq!(out.get_value(&data), None);
    let bad = FieldPath::new(vec!["items".to_string(), "x".to_string()]);
    assert_eq!(bad.get_value(&data), None);
}

#[test]
fn extract_field_formats_values() {
    let data = j(r#"{"s": "text", "n": 1.5, "b": false, "z": null, "a": [1, {"k": "v"}], "o": {}}"#);
    let get = |k: &str| FieldPath::single(k.to_string()).extract_field(&data);
    assert_eq!(get("s").as_deref(), Some("text"));
    assert_eq!(get("n").as_deref(), Some("1.5"));
    assert_eq!(get("b").as_deref(), Some("false"));
    assert_eq!(get("z").as_deref(), Some("null"));
    assert_eq!(get("a").as_deref(), Some("[\n  1,\n  {\n    \"k\": \"v\"\n  }\n]"));
    assert_eq!(get("o").as_deref(), Some("{}"));
    assert_eq!(get("missing"), None);
}

#[test]
fn numbers_compare_by_value_across_text_and_numbers() {
    let data = j(r#"{"a": "10", "b": 2.50, "c": "abc"}"#);
    assert!(FilterEngine::evaluate(&cmp("a", ComparisonOp::Equal, FilterValue::Number("10.0".to_string())), &data));
    assert!(FilterEngine::evaluate(&cmp("b", ComparisonOp::LessThan, FilterValue::Number("10".to_string())), &data));
    assert!(FilterEngine::evaluate(&cmp("b", ComparisonOp::Equal, FilterValue::String("2.5".to_string())), &data));
    assert!(!FilterEngine::evaluate(&cmp("c", ComparisonOp::GreaterThan, FilterValue::Number("1".to_string())), &data));
    assert!(FilterEngine::evaluate(&cmp("a", ComparisonOp::GreaterThan, FilterValue::String("9".to_string())), &data));
    assert!(FilterEngine::evaluate(&cmp("b", ComparisonOp::GreaterThanOrEqual, FilterValue::Number("-1e3".to_string())), &data));
}

#[test]
fn truthiness_of_strings_numbers_and_containers() {
    let data = j(r#"{"t": "Yes", "f": "OFF", "e": "", "w": "word", "z": 0, "n": 0.5, "a": [], "o": {"k": 1}}"#);
    let truthy = |k: &str| FilterEngine::evaluate_field_truthiness(&FieldPath::single(k.to_string()), &data);
    assert!(truthy("t"));
    assert!(!truthy("f"));
    assert!(!truthy("e"));
    assert!(truthy("w"));
    assert!(!truthy("z"));
    assert!(truthy("n"));
    assert!(!truthy("a"));
    assert!(truthy("o"));
    assert!(!truthy("missing"));
}

#[test]
fn string_operators_and_matches() {
    let data = j(r#"{"email": "alice@company.com", "n": 12345, "tags": ["x", "y"]}"#);
    assert!(FilterEngine::evaluate(&cmp("email", ComparisonOp::Contains, FilterValue::String("@company".to_string())), &data));
    assert!(FilterEngine::evaluate(&cmp("email", ComparisonOp::StartsWith, FilterValue::String("alice".to_string())), &data));
    assert!(FilterEngine::evaluate(&cmp("email", ComparisonOp::EndsWith, FilterValue::String(".com".to_string())), &data));
    assert!(FilterEngine::evaluate(&cmp("n", ComparisonOp::Matches, FilterValue::String("234".to_string())), &data));
    assert!(FilterEngine::evaluate(&cmp("tags", ComparisonOp::Matches, FilterValue::String("\"y\"".to_string())), &data));
    assert!(!FilterEngine::evaluate(&cmp("n", ComparisonOp::Contains, FilterValue::String("234".to_string())), &data));
}

#[test]
fn pattern_match_with_case_flag() {
    let data = j(r#"{"name": "Alice"}"#);
    let insensitive = FilterExpr::Regex {
        field: FieldPath::single("name".to_string()),
        pattern: "ALI".to_string(),
        flags: Some("i".to_string()),
    };
    let sensitive = FilterExpr::Regex {
        field: FieldPath::single("name".to_string()),
        pattern: "ALI".to_string(),
        flags: None,
    };
    assert!(FilterEngine::evaluate(&insensitive, &data));
    assert!(!FilterEngine::evaluate(&sensitive, &data));
}

#[test]
fn membership_in_literal_list() {
    let data = j(r#"{"role": "admin", "id": 7}"#);
    let role = FilterExpr::In {
        field: FieldPath::single("role".to_string()),
        values: vec![FilterValue::String("user".to_string()), FilterValue::String("admin".to_string())],
    };
    let id = FilterExpr::In {
        field: FieldPath::single("id".to_string()),
        values: vec![FilterValue::Number("7".to_string())],
    };
    let none = FilterExpr::In { field: FieldPath::single("role".to_string()), values: vec![] };
    assert!(FilterEngine::evaluate(&role, &data));
    assert!(FilterEngine::evaluate(&id, &data));
    assert!(!FilterEngine::evaluate(&none, &data));
}

#[test]
fn negation_inverts_and_double_negation_restores() {
    let data = j(r#"{"a": 1}"#);
    let base = || cmp("a", ComparisonOp::Equal, FilterValue::Number("1".to_string()));
    let not = FilterExpr::Not(Box::new(base()));
    let not_not = FilterExpr::Not(Box::new(FilterExpr::Not(Box::new(base()))));
    assert!(FilterEngine::evaluate(&base(), &data));
    assert!(!FilterEngine::evaluate(&not, &data));
    assert!(FilterEngine::evaluate(&not_not, &data));
}

#[test]
fn from_json_turns_containers_into_text() {
    assert_eq!(FilterValue::from_json(&j(r#"{"a":[1,"x"]}"#)), FilterValue::String("{\"a\":[1,\"x\"]}".to_string()));
    assert_eq!(FilterValue::from_json(&j("3.25")), FilterValue::Number("3.25".to_string()));
    assert_eq!(FilterValue::from_json(&j("null")), FilterValue::Null);
}

#[test]
fn missing_template_field_renders_nothing() {
    let template = Template {
        items: vec![
            TemplateItem::Literal("[".to_string()),
            TemplateItem::Field(FieldPath::single("nope".to_string())),
            TemplateItem::Literal("]".to_string()),
        ],
    };
    assert_eq!(template.render(&j("{}")), "[]");
}

#[test]
fn rendering_two_templates_in_a_row_concatenates_their_texts() {
    let data = j(r#"{"name": "Alice", "age": 30}"#);
    let first = vec![
        TemplateItem::Literal("Name: ".to_string()),
        TemplateItem::Field(FieldPath::new(vec!["name".to_string()])),
    ];
    let second = vec![
        TemplateItem::Literal(", age ".to_string()),
        TemplateItem::Field(FieldPath::new(vec!["age".to_string()])),
        TemplateItem::Field(FieldPath::new(vec!["missing".to_string()])),
    ];
    let a = Template { items: first }.render(&data);
    let b = Template { items: second }.render(&data);
    let both = Template {
        items: vec![
            TemplateItem::Literal("Name: ".to_string()),
            TemplateItem::Field(FieldPath::new(vec!["name".to_string()])),
            TemplateItem::Literal(", age ".to_string()),
            TemplateItem::Field(FieldPath::new(vec!["age".to_string()])),
            TemplateItem::Field(FieldPath::new(vec!["missing".to_string()])),
        ],
    }
    .render(&data);
    assert_eq!(both, format!("{a}{b}"));
    assert_eq!(both, "Name: Alice, age 30");
    assert_eq!(Template { items: vec![] }.render(&data), "");
}
