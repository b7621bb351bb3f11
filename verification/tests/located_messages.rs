use pddl_fol::{location, parse_dsl};

#[test]
fn location_reads_line_column_and_text() {
    assert_eq!(
        location("2:3: unknown section 'what'"),
        Some((2, 3, "unknown section 'what'".to_string()))
    );
    assert_eq!(location("12:4"), Some((12, 4, String::new())));
    assert_eq!(location("1:2:  a: b  "), Some((1, 2, "a: b".to_string())));
    assert_eq!(location("no position here"), None);
    assert_eq!(location("x:1: text"), None);
    assert_eq!(location("1:: text"), None);
    assert_eq!(location("99999999999999999999999:1: big"), None);
}

#[test]
fn parser_messages_read_back_to_their_positions() {
    let error = parse_dsl("problem x {\n  what;\n}").unwrap_err();
    assert_eq!(
        location(&error.to_string()),
        Some((2, 3, "unknown section 'what'".to_string()))
    );
}
