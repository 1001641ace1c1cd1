use parsm::json_stream::{
    chunk_text, opens_json_input, parse_json_chunk, read_chunk, ChunkFailure, JsonRecords, ParsedChunk,
};
use parsm::lines::{Line, LineSource};
use parsm::record::Record;
use parsm::records::RecordError;
use parsm::value::{well_formed, JsonValue};

fn source(input: &str) -> LineSource {
    LineSource::new(input)
}

fn first_chunk(input: &str) -> Vec<Line> {
    let mut source = source(input);
    let first = source.next_line().unwrap();
    read_chunk(first, &mut source)
}

fn next_item(records: &mut JsonRecords) -> Option<Result<Record, RecordError>> {
    loop {
        if let Some(item) = records.pop() {
            return Some(item);
        }
        let chunk = records.next_chunk()?;
        let parsed = parse_json_chunk(&chunk_text(&chunk));
        records.queue(chunk, parsed);
    }
}

fn outcomes(input: &str) -> Vec<Result<String, String>> {
    let mut records = JsonRecords::new(source(input));
    let mut out = Vec::new();
    while let Some(item) = next_item(&mut records) {
        out.push(match item {
            Ok(record) => Ok(record.source().to_string()),
            Err(error) => Err(error.message()),
        });
    }
    out
}

#[test]
fn chunk_spans_a_pretty_value() {
    assert_eq!(first_chunk("{\n \"a\": 1\n}\n{\"b\":2}").len(), 3);
    assert_eq!(first_chunk("{\"a\":1}\n{\"b\":2}").len(), 1);
}

#[test]
fn chunk_ignores_brackets_inside_strings() {
    assert_eq!(first_chunk("{\"a\": \"{[\"}\nx").len(), 1);
}

#[test]
fn chunk_ends_at_an_unterminated_string() {
    assert_eq!(first_chunk("{\"text\": \"Hello\nWorld\"}").len(), 1);
}

#[test]
fn trailing_rule_accepts_values_and_objects() {
    for input in [
        "42",
        "true",
        "\"hi\"",
        "[1,2]",
        "{\"a\":1} {\"a\":2}",
        "{\n}",
    ] {
        assert!(opens_json_input(&first_chunk(input)), "{input}");
    }
}

#[test]
fn trailing_rule_rejects_scalars_and_text_after_the_first_value() {
    for input in [
        "1,2,3",
        "\"Smith, John\",30",
        "200 OK",
        "1 2 3",
        "hello",
        "[a]",
    ] {
        assert!(!opens_json_input(&first_chunk(input)), "{input}");
    }
}

#[test]
fn array_items_become_records_with_compact_source() {
    let sources = outcomes("[{\"b\": 1, \"a\": 2}, 3]");
    assert_eq!(
        sources,
        vec![Ok("{\"b\":1,\"a\":2}".to_string()), Ok("3".to_string())]
    );
}

#[test]
fn value_source_is_its_own_text() {
    let sources = outcomes("{\"a\":1} {\"a\":2}\n{\n \"a\": 3\n}");
    assert_eq!(
        sources,
        vec![
            Ok("{\"a\":1}".to_string()),
            Ok("{\"a\":2}".to_string()),
            Ok("{\n \"a\": 3\n}".to_string()),
        ]
    );
}

#[test]
fn truncated_line_fails_and_the_next_line_is_read_again() {
    let results = outcomes("{\"a\":1}\n{\"a\":2\n{\"a\":3}");
    assert_eq!(results.len(), 3);
    assert_eq!(results[0], Ok("{\"a\":1}".to_string()));
    let warning = results[1].clone().unwrap_err();
    assert!(warning.starts_with("failed to parse line 2: "), "{warning}");
    assert_eq!(results[2], Ok("{\"a\":3}".to_string()));
}

#[test]
fn failure_inside_a_value_resumes_after_its_line() {
    let results = outcomes("{\"a\":1}\n{\"a\": oops}\n{\"a\":3}");
    assert_eq!(results.len(), 3);
    let warning = results[1].clone().unwrap_err();
    assert!(warning.starts_with("failed to parse line 2: "), "{warning}");
    assert!(!warning.contains("column"), "{warning}");
    assert_eq!(results[2], Ok("{\"a\":3}".to_string()));
}

#[test]
fn failure_before_any_value_is_a_first_record_failure() {
    let results = outcomes("hello\n{\"a\":1}");
    assert!(matches!(
        next_item(&mut JsonRecords::new(source("hello"))),
        Some(Err(RecordError::First { line: 1, .. }))
    ));
    assert_eq!(results[1], Ok("{\"a\":1}".to_string()));
}

#[test]
fn leading_comments_are_skipped() {
    assert_eq!(outcomes("# note\n\n42"), vec![Ok("42".to_string())]);
}

#[test]
fn failure_at_end_of_input_names_the_value_start() {
    let results = outcomes("{\"a\":1}\n\n{\"b\":\n2,");
    assert_eq!(results[0], Ok("{\"a\":1}".to_string()));
    let warning = results[1].clone().unwrap_err();
    assert!(warning.starts_with("failed to parse line 3: "), "{warning}");
    assert_eq!(results.len(), 2);
}

#[test]
fn position_suffix_is_removed_from_the_reason() {
    let mut records = JsonRecords::new(source("{\"a\": oops}"));
    let chunk = records.next_chunk().unwrap();
    let failure = ChunkFailure {
        eof: false,
        line: 1,
        column: 7,
        message: "expected value at line 1 column 7".to_string(),
    };
    records.queue(chunk, ParsedChunk { values: Vec::new(), failure: Some(failure) });
    match records.pop() {
        Some(Err(RecordError::First { line, reason, .. })) => {
            assert_eq!(line, 1);
            assert_eq!(reason, "expected value");
        }
        other => panic!("unexpected {other:?}"),
    }
}
