use parsm::detect::Format;
use parsm::dsl::{parse_command, parse_separate_expressions};
use parsm::parse::parse_logfmt;
use parsm::pipeline::{evaluate, outcome, Action, Outcome};
use parsm::record::Record;
use parsm::records::{RecordError, Records, Step};
use parsm::value::JsonValue;

/// The next record or failure of `records`, or `None` at the end.
fn next_item(records: &mut Records) -> Option<Result<Record, RecordError>> {
    loop {
        match records.step() {
            Step::Item(item) => return Some(item),
            Step::Read => {}
            Step::End => return None,
        }
    }
}

/// Every record of `input` written as `action` directs; the error when
/// processing stops.
fn process(input: &str, format: Option<Format>, action: Action<'_>) -> Result<String, String> {
    let mut records = Records::open(input, format);
    let mut output = String::new();
    while let Some(item) = next_item(&mut records) {
        match outcome(&item, action) {
            Outcome::Write(line) => {
                output.push_str(&line);
                output.push('\n');
            }
            Outcome::Nothing | Outcome::Warn(_) => {}
            Outcome::Fail(error) => return Err(error),
        }
    }
    Ok(output)
}

fn run(input: &str, format: Option<Format>, action: Action<'_>) -> String {
    process(input, format, action).unwrap()
}

fn evaluate_with(expression: &str, input: &str) -> String {
    let dsl = parse_command(expression).unwrap();
    run(input, None, Action::Evaluate(&dsl))
}

fn convert(input: &str) -> String {
    run(input, None, Action::Convert)
}

fn logfmt_record(line: &str) -> Record {
    Record::value(parse_logfmt(line).unwrap(), line.to_string())
}

#[test]
fn convert_writes_compact_json_per_record() {
    assert_eq!(
        run("name: Alice\nage: 30", None, Action::Convert),
        "{\"name\":\"Alice\",\"age\":30}\n"
    );
    assert_eq!(
        run("name,age\nTom,45", None, Action::Convert),
        "{\"name\":\"Tom\",\"age\":\"45\"}\n"
    );
}

#[test]
fn filter_without_template_writes_source() {
    let dsl = parse_separate_expressions(Some("a > 1"), None).unwrap();
    assert!(dsl.template.is_none());
    assert_eq!(run("a=2\na=1", None, Action::Evaluate(&dsl)), "a=2\n");
    assert_eq!(evaluate_with("a > 1", "a=2\na=1"), "a=2\n");
}

#[test]
fn missing_selected_field_writes_nothing() {
    assert_eq!(evaluate_with("nope", "{\"a\":1}\n{\"nope\":2}"), "2\n");
}

#[test]
fn forced_format_failure_is_returned() {
    let result = process("hello world", Some(Format::Json), Action::Convert);
    assert!(result.is_err());
}

#[test]
fn test_end_to_end_json_processing() {
    assert_eq!(convert(r#"{"name": "Alice", "age": 30}"#), "{\"name\":\"Alice\",\"age\":30}\n");
}

#[test]
fn test_end_to_end_csv_processing() {
    assert_eq!(convert("Alice,30,Engineer"), "[\"Alice\",\"30\",\"Engineer\"]\n");
}

#[test]
fn test_end_to_end_logfmt_processing() {
    assert_eq!(
        convert("level=error msg=timeout service=api"),
        "{\"level\":\"error\",\"msg\":\"timeout\",\"service\":\"api\"}\n"
    );
}

#[test]
fn test_complex_filter_expressions() {
    let dsl = parse_command(r#"age > 25 && name == "Alice""#).unwrap();
    assert!(dsl.filter.is_some());
}

#[test]
fn test_mixed_format_processing() {
    assert_eq!(convert(r#"{"name": "Alice"}"#), "{\"name\":\"Alice\"}\n");
    assert_eq!(convert("Alice,30"), "[\"Alice\",\"30\"]\n");
    assert_eq!(convert("name: Alice"), "{\"name\":\"Alice\"}\n");
}

#[test]
fn test_filter_writes_matching_source() {
    let dsl = parse_command("age > 25").unwrap();
    let input = "{\"name\": \"Alice\", \"age\": 30}\n{\"name\": \"Bob\", \"age\": 20}";
    assert_eq!(
        run(input, None, Action::Evaluate(&dsl)),
        "{\"name\": \"Alice\", \"age\": 30}\n"
    );
}

#[test]
fn test_utility_functions() {
    let dsl = parse_command("name").unwrap();
    assert!(dsl.field_selector.is_some());
    let dsl = parse_command(r#"age > 25"#).unwrap();
    assert!(dsl.filter.is_some());
    let dsl = parse_command("$name").unwrap();
    assert!(dsl.template.is_some());
}

#[test]
fn template_and_field_examples_from_the_guide() {
    let dsl = parse_command(r#"age > 25 {${name} is ${age} years old}"#).unwrap();
    assert_eq!(
        run(r#"{"name": "Alice", "age": 30}"#, None, Action::Evaluate(&dsl)),
        "Alice is 30 years old\n"
    );
    assert_eq!(evaluate_with("name", r#"{"name": "Alice", "age": 30}"#), "Alice\n");
    assert_eq!(evaluate_with("user.email", r#"{"user": {"email": "alice@example.com"}}"#), "alice@example.com\n");
}

#[test]
fn later_failure_is_a_warning_and_is_skipped() {
    let dsl = parse_command("a > 0").unwrap();
    assert_eq!(run("a=1\nnot logfmt\na=2", None, Action::Evaluate(&dsl)), "a=1\na=2\n");
}

#[test]
fn template_renders_over_csv_positions() {
    let dsl = parse_command("field_1 > \"25\" [${1} (${2})]").unwrap();
    let fields = parsm::csv_parser::parse_csv_line("Alice,30,Engineer").unwrap();
    let record = Record::row(fields, None, "Alice,30,Engineer".to_string());
    assert_eq!(evaluate(&record, &dsl).as_deref(), Some("Alice (30)"));
}

#[test]
fn logfmt_filter_and_template() {
    let dsl = parse_command("level == \"error\" [${msg}]").unwrap();
    let record = logfmt_record("level=error msg=\"DB error\"");
    assert_eq!(evaluate(&record, &dsl).as_deref(), Some("DB error"));
}

#[test]
fn original_input_variable() {
    let dsl = parse_command("{Original: ${0} -> ${word_1}}").unwrap();
    let record = Record::text("Alice 30".to_string());
    assert_eq!(evaluate(&record, &dsl).as_deref(), Some("Original: Alice 30 -> 30"));
}
