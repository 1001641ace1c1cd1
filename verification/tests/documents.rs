use parsm::detect::Format;
use parsm::documents::{
    document_marker, failure_line, has_content, join, parse_documents, read, split_documents, whole_input,
    yaml_documents, Document, FailurePlace,
};
use parsm::lines::Line;
use parsm::record::Record;
use parsm::records::RecordError;
use parsm::value::JsonValue;

fn lines(input: &str) -> Vec<Line> {
    input
        .lines()
        .enumerate()
        .map(|(index, text)| Line {
            number: index + 1,
            text: text.to_string(),
        })
        .collect()
}

fn read_input(format: Format, lines: &[Line], forced: bool) -> Option<Vec<Result<Record, RecordError>>> {
    let documents = split_documents(format, lines);
    let parsed = parse_documents(format, &documents);
    read(format, &documents, parsed, forced)
}

fn sources(parsed: &[Result<Record, RecordError>]) -> Vec<Result<String, String>> {
    parsed
        .iter()
        .map(|item| match item {
            Ok(record) => Ok(record.source().to_string()),
            Err(error) => Err(error.message()),
        })
        .collect()
}

#[test]
fn yaml_yields_one_record_per_document() {
    let parsed = read_input(Format::Yaml, &lines("---\nage: 30\n---\nage: 40\n"), false).unwrap();
    assert_eq!(
        sources(&parsed),
        vec![Ok("age: 30".to_string()), Ok("age: 40".to_string())]
    );
}

#[test]
fn yaml_first_document_keeps_leading_comments() {
    let parsed = read_input(Format::Yaml, &lines("# cfg\nname: Alice"), false).unwrap();
    assert_eq!(sources(&parsed), vec![Ok("# cfg\nname: Alice".to_string())]);
}

#[test]
fn guessed_yaml_with_duplicate_keys_is_unparsable() {
    assert!(read_input(Format::Yaml, &lines("INFO: a\nINFO: b"), false).is_none());
}

#[test]
fn forced_yaml_first_failure_is_reported() {
    let parsed = read_input(Format::Yaml, &lines("INFO: a\nINFO: b"), true).unwrap();
    assert!(matches!(parsed[..], [Err(RecordError::First { .. })]));
}

#[test]
fn later_yaml_document_failure_is_skipped() {
    let parsed = read_input(Format::Yaml, &lines("a: 1\n---\na: [\n---\na: 3"), false).unwrap();
    let sources = sources(&parsed);
    assert_eq!(sources.len(), 3);
    assert!(sources[1]
        .clone()
        .unwrap_err()
        .starts_with("failed to parse line"));
    assert_eq!(sources[2], Ok("a: 3".to_string()));
}

#[test]
fn toml_is_one_record() {
    let parsed = read_input(Format::Toml, &lines("a = 1\n[t]\nb = 2"), false).unwrap();
    assert_eq!(sources(&parsed), vec![Ok("a = 1\n[t]\nb = 2".to_string())]);
}

#[test]
fn forced_toml_failure_names_its_line() {
    let parsed = read_input(Format::Toml, &lines("a = 1\nb = ["), true).unwrap();
    match &parsed[..] {
        [Err(RecordError::First { line, .. })] => assert_eq!(*line, 2),
        other => panic!("unexpected {other:?}"),
    }
}

#[test]
fn markers_split_documents_and_keep_trailing_text() {
    assert_eq!(document_marker("---"), Some(String::new()));
    assert_eq!(document_marker("---  a: 1 "), Some("a: 1".to_string()));
    assert_eq!(document_marker("----"), None);
    assert_eq!(document_marker("a: ---"), None);

    let docs = yaml_documents(&lines("a: 1\n--- b: 2\nc: 3\n---\n# only a comment\n---\nd: 4"));
    let views: Vec<(usize, String)> = docs.iter().map(|d| (d.first_line, d.text.clone())).collect();
    assert_eq!(
        views,
        vec![
            (1, "a: 1".to_string()),
            (2, "b: 2\nc: 3".to_string()),
            (7, "d: 4".to_string()),
        ]
    );
}

#[test]
fn comment_only_input_has_no_documents() {
    assert!(yaml_documents(&lines("# one\n\n# two")).is_empty());
    let parsed = read_input(Format::Yaml, &lines("# one\n\n# two"), false).unwrap();
    assert!(parsed.is_empty());
    let doc = Document { first_line: 1, text: "  # c\n\n x".to_string() };
    assert!(has_content(&doc));
}

#[test]
fn whole_input_joins_every_line() {
    let doc = whole_input(&lines("a = 1\n\nb = 2"));
    assert_eq!(doc.first_line, 1);
    assert_eq!(doc.text, "a = 1\n\nb = 2");
    assert_eq!(join(&["x".to_string(), "y".to_string()]), "x\ny");
    assert_eq!(join(&[]), "");
}

#[test]
fn failure_lines_count_from_the_document_start() {
    let doc = Document { first_line: 5, text: "a\nbé\nc".to_string() };
    assert_eq!(failure_line(&doc, FailurePlace::Line(3)), 7);
    assert_eq!(failure_line(&doc, FailurePlace::Line(0)), 5);
    assert_eq!(failure_line(&doc, FailurePlace::Byte(6)), 7);
    assert_eq!(failure_line(&doc, FailurePlace::Byte(2)), 6);
    assert_eq!(failure_line(&doc, FailurePlace::Unknown), 5);
}
