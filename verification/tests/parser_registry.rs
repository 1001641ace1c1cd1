use parsm::parser_registry::{JsonParser, ParserKind, ParserRegistry, TomlParser, YamlParser};
use parsm::value::JsonValue;

fn member<'a>(value: &'a JsonValue, key: &str) -> Option<&'a JsonValue> {
    match value {
        JsonValue::Object(keys, values) => keys.iter().position(|k| k == key).map(|i| &values[i]),
        _ => None,
    }
}

fn text(s: &str) -> JsonValue {
    JsonValue::Str(s.to_string())
}

fn number(s: &str) -> JsonValue {
    JsonValue::Number(s.to_string())
}

#[test]
fn test_json_parser() {
    let parser = JsonParser;
    let json_input = r#"{"name": "Alice", "age": 30}"#;
    assert!(parser.can_parse(json_input));
    assert_eq!(parser.format_name(), "JSON");
    let result = parser.parse(json_input).unwrap();
    assert_eq!(member(&result, "name"), Some(&text("Alice")));
    assert_eq!(member(&result, "age"), Some(&number("30")));
}

#[test]
fn test_toml_parser() {
    let parser = TomlParser;
    let toml_input = "name = \"Alice\"\nage = 30";
    assert!(parser.can_parse(toml_input));
    assert_eq!(parser.format_name(), "TOML");
    let result = parser.parse(toml_input).unwrap();
    assert_eq!(member(&result, "name"), Some(&text("Alice")));
    assert_eq!(member(&result, "age"), Some(&number("30")));
}

#[test]
fn test_yaml_parser() {
    let parser = YamlParser;
    let yaml_input = "name: Alice\nage: 30";
    assert!(parser.can_parse(yaml_input));
    assert_eq!(parser.format_name(), "YAML");
    let result = parser.parse(yaml_input).unwrap();
    assert_eq!(member(&result, "name"), Some(&text("Alice")));
    assert_eq!(member(&result, "age"), Some(&number("30")));
}

#[test]
fn test_parser_registry() {
    let registry = ParserRegistry::new();
    let formats = registry.get_supported_formats();
    assert!(formats.contains(&"JSON"));
    assert!(formats.contains(&"TOML"));
    assert!(formats.contains(&"YAML"));
}

#[test]
fn test_registry_json_parsing() {
    let registry = ParserRegistry::new();
    let (result, format) = registry.parse_document(r#"{"name": "Alice", "age": 30}"#).unwrap();
    assert_eq!(format, "JSON");
    assert_eq!(member(&result, "name"), Some(&text("Alice")));
    assert_eq!(member(&result, "age"), Some(&number("30")));
}

#[test]
fn test_registry_toml_parsing() {
    let registry = ParserRegistry::new();
    let (result, format) = registry.parse_document("name = \"Alice\"\nage = 30").unwrap();
    assert_eq!(format, "TOML");
    assert_eq!(member(&result, "name"), Some(&text("Alice")));
    assert_eq!(member(&result, "age"), Some(&number("30")));
}

#[test]
fn test_registry_yaml_parsing() {
    let registry = ParserRegistry::new();
    let (result, format) = registry.parse_document("name: Alice\nage: 30").unwrap();
    assert_eq!(format, "YAML");
    assert_eq!(member(&result, "name"), Some(&text("Alice")));
    assert_eq!(member(&result, "age"), Some(&number("30")));
}

#[test]
fn test_registry_format_detection_optimization() {
    let registry = ParserRegistry::new();
    let (_, format) = registry.parse_document(r#"{"name": "Alice"}"#).unwrap();
    assert_eq!(format, "JSON");
    let (_, format) = registry.parse_document("---\nname: Alice").unwrap();
    assert_eq!(format, "YAML");
}

#[test]
fn test_registry_fallback_behavior() {
    let registry = ParserRegistry::new();
    let result = registry.parse_document("not valid structured data");
    assert!(result.is_err());
    assert_eq!(result.unwrap_err(), "No parser could handle the input");
}

#[test]
fn parser_registry_test_json_array_detection() {
    let registry = ParserRegistry::new();
    let (result, format) = registry.parse_document(r#"[{"name": "Alice"}, {"name": "Bob"}]"#).unwrap();
    assert_eq!(format, "JSON");
    match result {
        JsonValue::Array(items) => assert_eq!(items.len(), 2),
        other => panic!("expected an array, got {other:?}"),
    }
}

#[test]
fn registered_parsers_are_tried_in_order() {
    let mut registry = ParserRegistry { parsers: Vec::new() };
    registry.register(ParserKind::Yaml);
    registry.register(ParserKind::Json);
    assert_eq!(registry.get_supported_formats(), vec!["YAML", "JSON"]);
    assert_eq!(registry.find_parser_for_format(parsm::DetectedFormat::JsonArray), Some(1));
    assert_eq!(registry.find_parser_for_format(parsm::DetectedFormat::Csv), None);
    // A flow mapping is valid YAML too, but the detector names JSON first.
    let (_, format) = registry.parse_document(r#"{"a": 1}"#).unwrap();
    assert_eq!(format, "JSON");
}

#[test]
fn default_registry_matches_new() {
    let registry = ParserRegistry::default();
    assert_eq!(registry.get_supported_formats(), vec!["JSON", "TOML", "YAML"]);
}
