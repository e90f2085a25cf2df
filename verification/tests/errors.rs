//! Malformed documents: every failure is reported at an exact position.

use dot_strings::parse;
use dot_strings::Expectation;

#[test]
fn stray_quote_in_value_fails() {
    // the value scanner closes at the first unescaped quote, and the rest
    // of the line cannot satisfy the required `;`
    let text = b"/* Menu item to make the current document plain text */\n\
\"Make Plain Text\" = \"In reinen\" Text umwandeln\";\n\
/* Menu item to make the current document rich text */\n\
\"Make Rich Text\" = \"In formatierten Text umwandeln\";\n";
    let e = parse(text).unwrap_err();
    assert_eq!(e.expected, Expectation::Character);
    assert_eq!(e.offset, 88);
    assert_eq!(e.line, 2);
    assert_eq!(e.column, 33);
}

#[test]
fn malformed_unicode_escape_fails_at_backslash() {
    let e = parse(b"\"k\" = \"a\\Uzzzz\";").unwrap_err();
    assert_eq!(e.expected, Expectation::Character);
    assert_eq!(e.offset, 8);
    assert_eq!(e.line, 1);
    assert_eq!(e.column, 9);
}

#[test]
fn truncated_unicode_escape_fails_at_literal_start() {
    let e = parse(b"\"k\" = \"\\U00").unwrap_err();
    assert_eq!(e.expected, Expectation::EndOfInput);
    assert_eq!(e.offset, 6);
}

#[test]
fn unterminated_string_fails_at_literal_start() {
    let e = parse(b"\"abc").unwrap_err();
    assert_eq!(e.expected, Expectation::EndOfInput);
    assert_eq!(e.offset, 0);
}

#[test]
fn unterminated_block_comment_fails() {
    let e = parse(b"/* abc").unwrap_err();
    assert_eq!(e.expected, Expectation::Character);
    assert_eq!(e.offset, 0);
}

#[test]
fn missing_equals_fails() {
    let e = parse(b"\"a\" \"b\";").unwrap_err();
    assert_eq!(e.expected, Expectation::Character);
    assert_eq!(e.offset, 4);
}

#[test]
fn missing_semicolon_fails() {
    let e = parse(b"\"a\" = \"b\" \"c\";").unwrap_err();
    assert_eq!(e.expected, Expectation::Character);
    assert_eq!(e.offset, 10);
}

#[test]
fn missing_value_at_end_of_input() {
    let e = parse(b"\"a\" = \"1\";\n\"b\" = ").unwrap_err();
    assert_eq!(e.expected, Expectation::EndOfInput);
    assert_eq!(e.offset, 17);
    assert_eq!(e.line, 2);
    assert_eq!(e.column, 7);
}

#[test]
fn trailing_garbage_fails() {
    let e = parse(b"\"a\"=\"1\"; garbage").unwrap_err();
    assert_eq!(e.expected, Expectation::Character);
    assert_eq!(e.offset, 9);
}

#[test]
fn pairs_before_failure_are_not_returned() {
    // the parse is pass-or-fail: a malformed tail fails the whole document
    assert!(parse(b"\"a\" = \"1\"; \"b\" = \"2\"").is_err());
}
