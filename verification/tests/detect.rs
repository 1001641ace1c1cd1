use parsm::detect::{detect, detect_format, Format};
use parsm::lines::LineSource;

#[test]
fn precedence_table_examples() {
    let cases = [
        ("42", Format::Json),
        ("true", Format::Json),
        ("\"hi\"", Format::Json),
        ("[1,2]", Format::Json),
        ("{\n  \"a\": 1\n}", Format::Json),
        ("{\"a\":1} {\"a\":2}", Format::Json),
        ("a=1", Format::Logfmt),
        ("x=1 y=2", Format::Logfmt),
        ("a = 1", Format::Toml),
        ("name = \"Alice\"", Format::Toml),
        ("[server]\nport = 80", Format::Toml),
        ("a: 1", Format::Yaml),
        ("- a", Format::Yaml),
        ("---\na: 1", Format::Yaml),
        ("{a: 1}", Format::Yaml),
        ("user:\n  name: Alice", Format::Yaml),
        ("\"quoted key\": 1", Format::Yaml),
        ("a,b", Format::Csv),
        ("1,2,3", Format::Csv),
        ("\"Smith, John\",30", Format::Csv),
        ("hello", Format::Text),
        ("a:1", Format::Text),
        ("[a]", Format::Text),
        ("2024-01-01", Format::Text),
        ("200 OK", Format::Text),
        ("1 2 3", Format::Text),
        ("http://example.com", Format::Text),
        ("{\"text\": \"Hello\nWorld\"}", Format::Text),
        ("", Format::Text),
    ];
    for (input, expected) in cases {
        assert_eq!(detect_format(input), expected, "input: {input:?}");
    }
}

#[test]
fn leading_comments_and_blanks_are_held() {
    assert_eq!(detect_format("# cfg\n\nname: Alice"), Format::Yaml);
    assert_eq!(detect_format("# cfg\n{\"a\":1}"), Format::Json);
}

#[test]
fn malformed_json_falls_through() {
    assert_eq!(
        detect_format("{\"name\": \"Invalid JSON\"\n{\"name\": \"x\"}"),
        Format::Text
    );
    assert_eq!(detect_format("{\"a\":1,\n\"b\": 2, x"), Format::Csv);
}

#[test]
fn table_header_needs_a_following_pair() {
    assert_eq!(detect_format("[a]\n[b]"), Format::Text);
    assert_eq!(detect_format("[a]\n# c\nkey = 1"), Format::Toml);
}

#[test]
fn every_line_read_is_replayed() {
    let mut source = LineSource::new("# c\n{\n\"a\": 1\n}\nnext\n");
    assert_eq!(detect(&mut source), Format::Json);
    let lines: Vec<String> = source.read_to_end().into_iter().map(|l| l.text).collect();
    assert_eq!(lines, vec!["# c", "{", "\"a\": 1", "}", "next"]);
}

#[test]
fn format_names_and_rows() {
    assert_eq!(Format::Json.name(), "json");
    assert_eq!(Format::Csv.name(), "csv");
    assert_eq!(Format::Text.precedence_row(), 6);
    assert_eq!(Format::Logfmt.precedence_row(), 2);
}

#[test]
fn detection_leaves_every_line_for_a_text_guess() {
    let mut source = LineSource::new("hello\nworld");
    assert_eq!(detect(&mut source), Format::Text);
    let lines: Vec<String> = source.read_to_end().into_iter().map(|l| l.text).collect();
    assert_eq!(lines, vec!["hello", "world"]);
}
