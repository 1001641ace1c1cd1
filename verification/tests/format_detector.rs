use parsm::format_detector::{DetectedFormat, FormatDetector};

#[test]
fn test_json_detection() {
    let json_input = r#"{"name": "Alice", "age": 30}"#;
    let detected = FormatDetector::detect(json_input);

    assert_eq!(detected[0].0, DetectedFormat::Json);
    assert!(detected[0].1 > 80);
}

#[test]
fn format_detector_test_json_array_detection() {
    let json_array_input = r#"[{"name": "Alice"}, {"name": "Bob"}]"#;
    let detected = FormatDetector::detect(json_array_input);

    assert_eq!(detected[0].0, DetectedFormat::JsonArray);
    assert!(detected[0].1 > 80);
}

#[test]
fn test_yaml_detection() {
    let yaml_input = r#"---
name: Alice
age: 30
address:
  street: 123 Main St
  city: Anytown"#;
    let detected = FormatDetector::detect(yaml_input);

    assert_eq!(detected[0].0, DetectedFormat::Yaml);
    assert!(detected[0].1 > 90);
}

#[test]
fn test_toml_detection() {
    let toml_input = r#"name = "Alice"
age = 30

[address]
street = "123 Main St"
city = "Anytown""#;

    assert!(FormatDetector::is_likely_toml(toml_input));

    let detected = FormatDetector::detect(toml_input);
    let toml_detected = detected
        .iter()
        .find(|(format, _)| format == &DetectedFormat::Toml);
    assert!(toml_detected.is_some());
    assert!(toml_detected.unwrap().1 > 70);
}

#[test]
fn test_csv_detection() {
    let csv_input = r#"name,age,city
Alice,30,Anytown
Bob,25,Other City"#;

    assert!(FormatDetector::is_likely_csv(csv_input));

    let detected = FormatDetector::detect(csv_input);
    let csv_detected = detected
        .iter()
        .find(|(format, _)| format == &DetectedFormat::Csv);
    assert!(csv_detected.is_some());
}

#[test]
fn test_logfmt_detection() {
    let logfmt_input =
        r#"level=info msg="User logged in" user_id=123 timestamp="2023-01-01T10:00:00Z""#;

    assert!(FormatDetector::is_likely_logfmt(logfmt_input));

    let detected = FormatDetector::detect(logfmt_input);
    let logfmt_detected = detected
        .iter()
        .find(|(format, _)| format == &DetectedFormat::Logfmt);
    assert!(logfmt_detected.is_some());
}

#[test]
fn test_format_detection_order() {
    let json_input = r#"{"name": "Alice", "age": 30}"#;
    let detected = FormatDetector::detect(json_input);

    for window in detected.windows(2) {
        assert!(window[0].1 >= window[1].1);
    }
}

#[test]
fn test_no_duplicate_formats() {
    let mixed_input = r#"{"name": "Alice", "age": 30}"#;
    let detected = FormatDetector::detect(mixed_input);

    let mut seen_formats = std::collections::HashSet::new();
    for (format, _) in detected {
        assert!(seen_formats.insert(format), "Duplicate format detected");
    }
}

#[test]
fn plain_text_always_closes_the_list() {
    let detected = FormatDetector::detect("just words");
    assert_eq!(detected.last().unwrap(), &(DetectedFormat::PlainText, 10));
}
