use kpr::tables::{format_row_parts, make_table, max_timestamp_width};

#[test]
fn max_timestamp_width_finds_the_widest() {
    let rows = vec![
        ("5 min ago".to_string(), "a".to_string()),
        ("just now".to_string(), "b".to_string()),
        ("10 minutes ago".to_string(), "c".to_string()),
    ];
    assert_eq!(max_timestamp_width(&rows), 14);
    assert_eq!(max_timestamp_width(&Vec::new()), 0);
}

#[test]
fn make_table_right_aligns_timestamps() {
    let rows = vec![
        ("5".to_string(), "alpha".to_string()),
        ("10".to_string(), "beta".to_string()),
    ];
    let table = make_table(&rows);
    assert_eq!(table.len(), 2);
    assert_eq!(table[0], " 5  alpha");
    assert_eq!(table[1], "10  beta");
}

#[test]
fn make_table_wraps_long_messages() {
    let long = "word ".repeat(30);
    let rows = vec![("now".to_string(), long.trim().to_string())];
    let table = make_table(&rows);
    assert_eq!(table.len(), 1);
    // the message is longer than the wrap column, so the line must hold a
    // break followed by the five-character indent (three for the
    // timestamp column, two for the gap)
    assert!(table[0].contains('\n'));
    assert!(table[0].contains("\n     word"));
}

#[test]
fn format_row_parts_indents_continuations() {
    let parts = vec!["first".to_string(), "second".to_string(), "third".to_string()];
    let joined = format_row_parts(parts, 3);
    assert_eq!(joined, "first\n     second\n     third");
}

#[test]
fn format_row_parts_of_nothing_is_empty() {
    assert_eq!(format_row_parts(Vec::new(), 7), "");
}
