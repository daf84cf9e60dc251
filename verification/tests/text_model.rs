use typing_game::text::{get_lines, ElementValue};

fn targets_of(line: &typing_game::text::Line) -> Vec<ElementValue> {
    line.1.iter().map(|e| e.target).collect()
}

#[test]
fn single_line_becomes_chars_and_marker() {
    let lines = get_lines("ab");
    assert_eq!(lines.len(), 1);
    assert_eq!(lines[0].0, 0);
    assert_eq!(
        targets_of(&lines[0]),
        vec![
            ElementValue::Char('a'),
            ElementValue::Char('b'),
            ElementValue::Newline
        ]
    );
    assert!(lines[0].1.iter().all(|e| e.value.is_none()));
}

#[test]
fn leading_whitespace_becomes_indent() {
    let lines = get_lines("  cd");
    assert_eq!(lines.len(), 1);
    assert_eq!(lines[0].0, 2);
    assert_eq!(
        targets_of(&lines[0]),
        vec![
            ElementValue::Char('c'),
            ElementValue::Char('d'),
            ElementValue::Newline
        ]
    );
}

#[test]
fn trailing_whitespace_is_dropped() {
    let lines = get_lines("ab  \t");
    assert_eq!(lines.len(), 1);
    assert_eq!(lines[0].0, 0);
    assert_eq!(lines[0].1.len(), 3);
}

#[test]
fn empty_line_is_one_marker() {
    let lines = get_lines("");
    assert_eq!(lines.len(), 1);
    assert_eq!(lines[0].0, 0);
    assert_eq!(targets_of(&lines[0]), vec![ElementValue::Newline]);
}

#[test]
fn lines_split_on_newline() {
    let lines = get_lines("ab\n  cd\n\nef");
    assert_eq!(lines.len(), 4);
    assert_eq!(lines[0].0, 0);
    assert_eq!(lines[1].0, 2);
    assert_eq!(lines[2].0, 0);
    assert_eq!(targets_of(&lines[2]), vec![ElementValue::Newline]);
    assert_eq!(
        targets_of(&lines[3]),
        vec![
            ElementValue::Char('e'),
            ElementValue::Char('f'),
            ElementValue::Newline
        ]
    );
}

#[test]
fn indent_round_trip_restores_source_line() {
    // Indentation round-trip on a concrete line: three spaces, then text.
    let source = "   let x = 1;";
    let lines = get_lines(source);
    assert_eq!(lines.len(), 1);
    let line = &lines[0];
    let mut rebuilt = String::new();
    for _ in 0..line.0 {
        rebuilt.push(' ');
    }
    for e in line.1.iter() {
        if let ElementValue::Char(c) = e.target {
            rebuilt.push(c);
        }
    }
    assert_eq!(rebuilt, source);
}

#[test]
fn crlf_carriage_returns_are_stripped() {
    let lines = get_lines("ab\r\ncd");
    assert_eq!(lines.len(), 2);
    assert_eq!(lines[0].1.len(), 3);
    assert_eq!(
        targets_of(&lines[0]),
        vec![
            ElementValue::Char('a'),
            ElementValue::Char('b'),
            ElementValue::Newline
        ]
    );
}
