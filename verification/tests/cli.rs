use parsm::parser_registry::JsonParser;
use parsm::detect::Format;
use parsm::dsl::parse_command;
use parsm::filter::{FilterEngine, TemplateItem};
use parsm::json_text::to_compact;
use parsm::pipeline::{outcome, Action, Outcome};
use parsm::record::Record;
use parsm::records::{RecordError, Records, Step};
use parsm::value::JsonValue;

/// The next record or failure of `records`, or `None` at the end.
fn next_item(records: &mut Records) -> Option<Result<Record, RecordError>> {
    loop {
        match records.step() {
            Step::Item(item) => return Some(item),
            Step::Read => {}
            Step::End => return None,
        }
    }
}

/// Every record of `input` written as `action` directs.
fn process(input: &str, format: Option<Format>, action: Action<'_>) -> Result<String, String> {
    let mut records = Records::open(input, format);
    let mut output = String::new();
    while let Some(item) = next_item(&mut records) {
        match outcome(&item, action) {
            Outcome::Write(line) => {
                output.push_str(&line);
                output.push('\n');
            }
            Outcome::Nothing | Outcome::Warn(_) => {}
            Outcome::Fail(error) => return Err(error),
        }
    }
    Ok(output)
}

fn j(text: &str) -> JsonValue {
    JsonParser.parse(text).unwrap()
}

#[test]
fn test_json_filtering() {
    let dsl = parse_command(r#"name == "Alice""#).unwrap();
    let json_data = j(r#"{"name": "Alice", "age": 30}"#);
    let passes = if let Some(ref filter) = dsl.filter {
        FilterEngine::evaluate(filter, &json_data)
    } else {
        true
    };
    assert!(passes);
}

#[test]
fn parsm_test_template_rendering() {
    let dsl = parse_command(r#"{${name} is ${age} years old}"#).unwrap();
    let json_data = j(r#"{"name": "Alice", "age": 30}"#);
    if let Some(ref template) = dsl.template {
        assert_eq!(template.render(&json_data), "Alice is 30 years old");
    } else {
        panic!("Expected template");
    }
}

#[test]
fn test_csv_conversion() {
    let dsl = parse_command("[${field_0}|${field_1}|${field_2}]").unwrap();
    let output = process("Alice,30,Engineer", None, Action::Evaluate(&dsl)).unwrap();
    assert_eq!(output, "Alice|30|Engineer\n");
}

#[test]
fn test_field_selection() {
    let dsl = parse_command("\"State\"").unwrap();
    assert!(dsl.field_selector.is_some());
    assert!(dsl.filter.is_none());
    assert!(dsl.template.is_none());
    let field_selector = dsl.field_selector.unwrap();
    assert_eq!(field_selector.parts, vec!["State"]);
    let json_data = j(r#"{
        "Id": "123",
        "State": {"Status": "running", "Running": true, "Pid": 2034},
        "Name": "container"
    }"#);
    let extracted = field_selector.extract_field(&json_data).unwrap();
    let parsed_extracted: serde_json::Value = serde_json::from_str(&extracted).unwrap();
    assert_eq!(parsed_extracted["Status"], "running");
    assert_eq!(parsed_extracted["Running"], true);
    assert_eq!(parsed_extracted["Pid"], 2034);
}

#[test]
fn test_field_selection_not_found() {
    let dsl = parse_command("\"NonExistent\"").unwrap();
    let field_selector = dsl.field_selector.unwrap();
    let json_data = j(r#"{"State": {"Status": "running"}}"#);
    assert!(field_selector.extract_field(&json_data).is_none());
}

#[test]
fn debug_template_parsing() {
    let dsl = parse_command(r#"{${name} is ${age} years old}"#).unwrap();
    if let Some(ref template) = dsl.template {
        println!("Template items: {:?}", template.items);
        let output = template.render(&j(r#"{"name": "Alice", "age": 30}"#));
        println!("Template output: '{output}'");
    } else {
        panic!("Expected template");
    }
}

#[test]
fn debug_template_rendering_detailed() {
    let dsl = parse_command(r#"{${name} is ${age} years old}"#).unwrap();
    if let Some(ref template) = dsl.template {
        println!("Template items: {:?}", template.items);
        let json_data = j(r#"{"name": "Alice", "age": 30}"#);
        let mut result = String::new();
        for (i, item) in template.items.iter().enumerate() {
            match item {
                TemplateItem::Field(field) => {
                    if let Some(value) = field.get_value(&json_data) {
                        let formatted = to_compact(value);
                        println!("Item {i}: Field({field:?}) -> '{formatted}'");
                        result.push_str(&formatted);
                    }
                }
                TemplateItem::Literal(text) => {
                    println!("Item {i}: Literal -> '{text}'");
                    result.push_str(text);
                }
                TemplateItem::Conditional { .. } => {
                    println!("Item {i}: Conditional");
                }
            }
        }
        println!("Manual result: '{result}'");
        let template_result = template.render(&json_data);
        println!("Template result: '{template_result}'");
    } else {
        panic!("Expected template");
    }
}

#[test]
fn test_interpolated_template() {
    let dsl = parse_command(r#"[Hello ${name}, you are ${age} years old]"#).unwrap();
    if let Some(ref template) = dsl.template {
        println!("Interpolated template items: {:?}", template.items);
        let output = template.render(&j(r#"{"name": "Alice", "age": 30}"#));
        println!("Interpolated output: '{output}'");
    } else {
        println!("No template found");
    }
}

#[test]
fn debug_simple_template() {
    let dsl = parse_command(r#"{${name}_is_${age}_years_old}"#).unwrap();
    if let Some(ref template) = dsl.template {
        println!("Simple template items: {:?}", template.items);
        let output = template.render(&j(r#"{"name": "Alice", "age": 30}"#));
        println!("Simple output: '{output}'");
    }
}
