use parsm::csv_parser::parse_csv_line;
use parsm::parse::parse_logfmt;
use parsm::value::JsonValue;

fn logfmt(line: &str) -> JsonValue {
    parse_logfmt(line).expect("line should parse as logfmt")
}

fn field<'a>(value: &'a JsonValue, key: &str) -> &'a str {
    match value {
        JsonValue::Object(keys, values) => {
            let i = keys.iter().position(|k| k == key).expect("key present");
            match &values[i] {
                JsonValue::Str(s) => s.as_str(),
                _ => panic!("not a string"),
            }
        }
        _ => panic!("not an object"),
    }
}

#[test]
fn test_logfmt_bare_and_quoted_values() {
    let value = logfmt(r#"level=info msg="Starting application" port=8080"#);
    assert_eq!(field(&value, "level"), "info");
    assert_eq!(field(&value, "msg"), "Starting application");
    assert_eq!(field(&value, "port"), "8080");
}

#[test]
fn test_logfmt_rejects_tokens_without_equals() {
    assert!(parse_logfmt("hello world").is_none());
    assert!(parse_logfmt("a b=1").is_none());
    assert!(parse_logfmt("a = 1").is_none());
    assert!(parse_logfmt("=1").is_none());
    assert!(parse_logfmt("").is_none());
}

#[test]
fn test_logfmt_keeps_key_order() {
    let value = logfmt("z=1 a=2");
    match value {
        JsonValue::Object(keys, _) => assert_eq!(keys, vec!["z", "a"]),
        _ => panic!("not an object"),
    }
}

#[test]
fn test_logfmt_escaped_quotes_comprehensive() {
    let value = logfmt(r#"level=error msg=\"DB connection failed\" service=api"#);
    assert_eq!(field(&value, "level"), "error");
    assert_eq!(field(&value, "msg"), "DB connection failed");
    assert_eq!(field(&value, "service"), "api");
}

#[test]
fn test_logfmt_mixed_quote_styles() {
    let value = logfmt(r#"level=info msg=\"Server starting\" port=8080 env="production""#);
    assert_eq!(field(&value, "level"), "info");
    assert_eq!(field(&value, "msg"), "Server starting");
    assert_eq!(field(&value, "port"), "8080");
    assert_eq!(field(&value, "env"), "production");
}

#[test]
fn test_logfmt_escaped_quotes_with_spaces() {
    let value =
        logfmt(r#"action=login user=\"john doe\" reason=\"failed: invalid password\" attempts=3"#);
    assert_eq!(field(&value, "action"), "login");
    assert_eq!(field(&value, "user"), "john doe");
    assert_eq!(field(&value, "reason"), "failed: invalid password");
    assert_eq!(field(&value, "attempts"), "3");
}

#[test]
fn test_logfmt_nested_escape_sequences() {
    let value = logfmt(r#"msg=\"Error: \\server\\path\\file.txt\" status=\"failed\""#);
    assert_eq!(field(&value, "msg"), r"Error: \server\path\file.txt");
    assert_eq!(field(&value, "status"), "failed");
}

#[test]
fn test_logfmt_empty_escaped_quotes() {
    let value = logfmt(r#"level=debug msg=\"\" user=system"#);
    assert_eq!(field(&value, "level"), "debug");
    assert_eq!(field(&value, "msg"), "");
    assert_eq!(field(&value, "user"), "system");
}

#[test]
fn test_logfmt_malformed_escaped_quotes() {
    let value = logfmt(r#"level=error msg=\"unclosed quote service=api"#);
    assert_eq!(field(&value, "level"), "error");
    assert!(field(&value, "msg").contains("unclosed quote service=api"));
}

#[test]
fn test_csv_line_fields() {
    let record = parse_csv_line(r#"John,30,"Engineer, Senior""#).unwrap();
    assert_eq!(record.first().map(String::as_str), Some("John"));
    assert_eq!(record.get(1).map(String::as_str), Some("30"));
    assert_eq!(record.get(2).map(String::as_str), Some("Engineer, Senior"));
}

#[test]
fn repeated_logfmt_key_keeps_place_and_last_value() {
    let value = logfmt("a=1 b=2 a=3");
    match &value {
        JsonValue::Object(keys, _) => assert_eq!(keys, &vec!["a", "b"]),
        _ => panic!("not an object"),
    }
    assert_eq!(field(&value, "a"), "3");
}
