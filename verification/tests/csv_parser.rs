use parsm::csv_parser::{detect_header_row, is_data_like, is_numeric};

#[test]
fn test_header_detection_with_names() {
    let input = "name,age,occupation\nTom,45,engineer\nAlice,30,doctor";
    let lines: Vec<&str> = input.lines().collect();
    assert!(detect_header_row(&lines));
}

#[test]
fn test_header_detection_no_headers() {
    let input = "Tom,45,engineer\nAlice,30,doctor";
    let lines: Vec<&str> = input.lines().collect();
    assert!(!detect_header_row(&lines));
}

#[test]
fn test_no_header_with_mixed_types() {
    let input = "Alice,30,Engineer\nBob,25,Designer\nCharlie,35,Manager";
    let lines: Vec<&str> = input.lines().collect();
    assert!(!detect_header_row(&lines));
}

#[test]
fn test_header_detection_all_text_headers() {
    let input = "first_name,last_name,job_title\nAlice,Smith,Engineer\nBob,Jones,Designer";
    let lines: Vec<&str> = input.lines().collect();
    assert!(detect_header_row(&lines));
}

#[test]
fn test_header_detection_with_special_chars() {
    let input = "user_id,email_address,signup_date\njohn123,john@example.com,2023-01-15\nmary456,mary@example.com,2023-02-20";
    let lines: Vec<&str> = input.lines().collect();
    assert!(detect_header_row(&lines));

    let input = "Name,Email,Phone\nJohn,john@example.com,555-1234\nMary,mary@example.com,555-5678";
    let lines: Vec<&str> = input.lines().collect();
    assert!(detect_header_row(&lines));

    let input = "ID,Code,Date\nA123,XY-789,2023-05-15\nB456,ZZ-123,2023-06-20";
    let lines: Vec<&str> = input.lines().collect();
    assert!(detect_header_row(&lines));
}

#[test]
fn test_is_numeric() {
    assert!(is_numeric("123"));
    assert!(is_numeric("123.456"));
    assert!(is_numeric("-123"));
    assert!(is_numeric("+456"));
    assert!(is_numeric("123.456"));

    assert!(!is_numeric("name"));
    assert!(!is_numeric(""));
    assert!(!is_numeric("abc123"));
    assert!(!is_numeric("test@example.com"));
}

#[test]
fn test_is_data_like() {
    assert!(is_data_like("123"));
    assert!(is_data_like("test@example.com"));
    assert!(is_data_like("http://example.com"));
    assert!(is_data_like("2023-05-15"));
    assert!(is_data_like("AB-123"));

    assert!(!is_data_like("first_name"));
    assert!(!is_data_like("name"));
    assert!(!is_data_like(""));
}

#[test]
fn single_line_is_never_a_header() {
    assert!(!detect_header_row(&["name,age"]));
}

#[test]
fn numeric_first_row_is_not_a_header() {
    assert!(!detect_header_row(&["1,2", "a,b"]));
}

#[test]
fn empty_first_field_is_not_a_header() {
    assert!(!detect_header_row(&["name,,age", "Tom,x,45"]));
}
