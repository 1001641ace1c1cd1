use parsm::detect::Format;
use parsm::record::Record;
use parsm::records::{RecordError, Records, Step};
use parsm::value::JsonValue;

/// The next record or failure of `records`, or `None` at the end.
fn next_item(records: &mut Records) -> Option<Result<Record, RecordError>> {
    loop {
        match records.step() {
            Step::Item(item) => return Some(item),
            Step::Read => {}
            Step::End => return None,
        }
    }
}

fn read(input: &str, forced: Option<Format>) -> (Format, Vec<Result<String, String>>) {
    let mut records = Records::open(input, forced);
    let mut sources = Vec::new();
    while let Some(item) = next_item(&mut records) {
        sources.push(match item {
            Ok(record) => Ok(record.source().to_string()),
            Err(error) => Err(error.message()),
        });
    }
    (records.format(), sources)
}

fn ok(sources: &[&str]) -> Vec<Result<String, String>> {
    sources.iter().map(|s| Ok(s.to_string())).collect()
}

#[test]
fn guessed_yaml_that_fails_is_read_as_text() {
    let (format, sources) = read("INFO: started\nINFO: done", None);
    assert_eq!(format, Format::Text);
    assert_eq!(sources, ok(&["INFO: started", "INFO: done"]));
}

#[test]
fn text_emits_leading_comments() {
    let (_, sources) = read("# note\n\nhello world", None);
    assert_eq!(sources, ok(&["# note", "hello world"]));
}

#[test]
fn logfmt_skips_leading_comments_and_warns_on_later_failures() {
    let (format, sources) = read("# note\na=1\nnot logfmt\nb=2", None);
    assert_eq!(format, Format::Logfmt);
    assert_eq!(sources.len(), 3);
    assert_eq!(
        sources[1],
        Err("failed to parse line 3: expected key=value pairs".to_string())
    );
}

#[test]
fn forced_format_skips_detection() {
    let (format, sources) = read("{\"a\":1}", Some(Format::Text));
    assert_eq!(format, Format::Text);
    assert_eq!(sources, ok(&["{\"a\":1}"]));
}

#[test]
fn forced_format_first_failure_is_fatal() {
    let mut records = Records::open("hello", Some(Format::Logfmt));
    assert!(matches!(
        next_item(&mut records),
        Some(Err(RecordError::First { line: 1, .. }))
    ));
}

#[test]
fn csv_header_row_is_not_a_record() {
    let (format, sources) = read("# c\nname,age\nTom,45\nAnn,30", None);
    assert_eq!(format, Format::Csv);
    assert_eq!(sources, ok(&["Tom,45", "Ann,30"]));
}

#[test]
fn forced_yaml_failure_stops_at_the_first_document() {
    let (format, sources) = read("INFO: a\nINFO: b\n---\nc: 1", Some(Format::Yaml));
    assert_eq!(format, Format::Yaml);
    assert_eq!(sources.len(), 1);
    assert!(sources[0].clone().unwrap_err().starts_with("input is not yaml: line "));
}

#[test]
fn yaml_documents_become_records_in_order() {
    let (format, sources) = read("---\nname: Alice\n---\nname: Bob", None);
    assert_eq!(format, Format::Yaml);
    assert_eq!(sources, ok(&["name: Alice", "name: Bob"]));
}

#[test]
fn json_input_streams_values_and_array_items() {
    let (format, sources) = read("[1, {\"a\": true}]\n{\"b\": 2}", None);
    assert_eq!(format, Format::Json);
    assert_eq!(sources, ok(&["1", "{\"a\":true}", "{\"b\": 2}"]));
}
