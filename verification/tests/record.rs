use parsm::parser_registry::JsonParser;
use parsm::csv_parser::parse_csv_line;
use parsm::record::{CsvHeader, Record};
use parsm::value::JsonValue;

fn j(text: &str) -> JsonValue {
    JsonParser.parse(text).unwrap()
}

fn csv_fields(line: &str) -> Vec<String> {
    parse_csv_line(line).unwrap()
}

fn get<'a>(v: &'a JsonValue, key: &str) -> &'a JsonValue {
    match v {
        JsonValue::Object(keys, values) => &values[keys.iter().position(|k| k == key).unwrap()],
        _ => panic!("not an object"),
    }
}

#[test]
fn object_view_adds_source() {
    let record = Record::value(j(r#"{"a": 1}"#), r#"{"a": 1}"#.to_string());
    assert_eq!(record.view(), j(r#"{"a": 1, "$0": "{\"a\": 1}"}"#));
    assert_eq!(record.to_json(), j(r#"{"a": 1}"#));
}

#[test]
fn scalar_and_array_views_expose_source() {
    assert_eq!(Record::value(j("42"), "42".to_string()).view(), j(r#"{"$0": "42"}"#));
    let sequence = Record::value(j(r#"["a"]"#), "- a".to_string());
    assert_eq!(sequence.view(), j(r#"{"0": "a", "$0": "- a"}"#));
    assert_eq!(sequence.to_json(), j(r#"["a"]"#));
}

#[test]
fn csv_row_view_without_header() {
    let record = Record::row(csv_fields("Alice,30"), None, "Alice,30".to_string());
    assert_eq!(
        record.view(),
        j(r#"{
            "0": "Alice,30", "${0}": "Alice,30",
            "1": "Alice", "field_0": "Alice", "2": "30", "field_1": "30",
            "_array": ["Alice", "30"], "$0": "Alice,30"
        }"#)
    );
    assert_eq!(record.to_json(), j(r#"["Alice", "30"]"#));
}

#[test]
fn csv_row_with_header_keys_by_name() {
    let header = CsvHeader::new(&csv_fields("Name,age"));
    let record = Record::row(csv_fields("Tom,45"), Some(header), "Tom,45".to_string());
    let view = record.view();
    assert_eq!(get(&view, "name"), &j(r#""Tom""#));
    assert_eq!(get(&view, "$name"), &j(r#""Tom""#));
    assert_eq!(get(&view, "${age}"), &j(r#""45""#));
    assert_eq!(get(&view, "field_1"), &j(r#""45""#));
    assert_eq!(parsm::json_text::to_compact(&record.to_json()), r#"{"Name":"Tom","age":"45"}"#);
}

#[test]
fn text_view_splits_words() {
    let record = Record::text("hello  world".to_string());
    assert_eq!(
        record.view(),
        j(r#"{"word_0": "hello", "word_1": "world", "_array": ["hello", "world"], "$0": "hello  world"}"#)
    );
    assert_eq!(record.to_json(), j(r#"["hello", "world"]"#));
}

#[test]
fn source_key_replaces_a_value_key_in_place() {
    let record = Record::value(j(r#"{"$0": "old", "b": 2}"#), "src".to_string());
    assert_eq!(record.view(), j(r#"{"$0": "src", "b": 2}"#));
}
