use parsm::lines::{Line, LineSource};

fn texts(lines: &[Line]) -> Vec<(usize, &str)> {
    lines.iter().map(|l| (l.number, l.text.as_str())).collect()
}

#[test]
fn numbers_lines_and_strips_terminators() {
    let mut source = LineSource::new("a\r\nb\n\nc");
    let lines = source.read_to_end();
    assert_eq!(texts(&lines), vec![(1, "a"), (2, "b"), (3, ""), (4, "c")]);
}

#[test]
fn replayed_lines_come_first_in_order() {
    let mut source = LineSource::new("a\nb\nc\n");
    let first = source.next_line().unwrap();
    let second = source.next_line().unwrap();
    source.replay(vec![first, second]);
    let lines = source.read_to_end();
    assert_eq!(texts(&lines), vec![(1, "a"), (2, "b"), (3, "c")]);
}

#[test]
fn blank_and_comment_lines() {
    let blank = Line { number: 1, text: "  \t".to_string() };
    let comment = Line { number: 2, text: "   # note".to_string() };
    let text = Line { number: 3, text: "a # b".to_string() };
    assert!(blank.is_blank());
    assert!(!blank.is_comment());
    assert!(comment.is_comment());
    assert!(!text.is_comment());
    assert!(!text.is_blank());
}

#[test]
fn exhausted_source_gives_nothing() {
    let mut source = LineSource::new("only");
    assert!(source.next_line().is_some());
    assert!(source.next_line().is_none());
}
