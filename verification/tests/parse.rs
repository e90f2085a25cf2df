//! Parsing well-formed documents.

use dot_strings::parse;

#[test]
fn two_pairs_document() {
    let text = b"/* Menu item to make the current document plain text */\n\
\"Make Plain Text\" = \"In reinen Text umwandeln\";\n\
/* Menu item to make the current document rich text */\n\
\"Make Rich Text\" = \"In formatierten Text umwandeln\";\n";
    let m = parse(text).unwrap();
    assert_eq!(m.len(), 2);
    assert_eq!(
        m.get(b"\"Make Plain Text\"").unwrap(),
        &b"\"In reinen Text umwandeln\"".to_vec()
    );
    assert_eq!(
        m.get(b"\"Make Rich Text\"").unwrap(),
        &b"\"In formatierten Text umwandeln\"".to_vec()
    );
}

#[test]
fn empty_document() {
    let m = parse(b"").unwrap();
    assert_eq!(m.len(), 0);
}

#[test]
fn comments_only_document() {
    let m = parse(b"   /* only comments */  ").unwrap();
    assert_eq!(m.len(), 0);
}

#[test]
fn line_comments_and_whitespace_only() {
    let m = parse(b"// nothing here\n\t \r\n// nor here").unwrap();
    assert_eq!(m.len(), 0);
}

#[test]
fn empty_line_comment() {
    // `//` directly before the line break is a line comment with an empty
    // text run
    let m = parse(b"//\n\"a\" = \"1\";").unwrap();
    assert_eq!(m.len(), 1);
}

#[test]
fn duplicate_key_last_wins() {
    let m = parse(br#""a"="1";"a"="2";"#).unwrap();
    assert_eq!(m.len(), 1);
    assert_eq!(m.get(b"\"a\"").unwrap(), &b"\"2\"".to_vec());
}

#[test]
fn escaped_quote_spans_one_literal() {
    let m = parse(b"\"a\\\"b\" = \"v\";").unwrap();
    assert_eq!(m.len(), 1);
    assert_eq!(m.get(b"\"a\\\"b\"").unwrap(), &b"\"v\"".to_vec());
}

#[test]
fn escaped_backslash_then_quote_closes() {
    // the byte after a backslash is consumed uninterpreted, so the second
    // backslash does not re-arm the escape and the quote after it closes
    let m = parse(b"\"a\\\\\" = \"v\";").unwrap();
    assert_eq!(m.len(), 1);
    assert_eq!(m.get(b"\"a\\\\\"").unwrap(), &b"\"v\"".to_vec());
}

#[test]
fn valid_unicode_escape() {
    let m = parse(b"\"k\" = \"\\U0041\";").unwrap();
    assert_eq!(m.get(b"\"k\"").unwrap(), &b"\"\\U0041\"".to_vec());
}

#[test]
fn comments_between_tokens() {
    let m = parse(b"\"k\" /*c*/ = //x\n\"v\" ;").unwrap();
    assert_eq!(m.len(), 1);
    assert_eq!(m.get(b"\"k\"").unwrap(), &b"\"v\"".to_vec());
}

#[test]
fn empty_key_and_value() {
    let m = parse(b"\"\" = \"\";").unwrap();
    assert_eq!(m.len(), 1);
    assert_eq!(m.get(b"\"\"").unwrap(), &b"\"\"".to_vec());
}

#[test]
fn no_trivia_between_tokens() {
    let m = parse(br#""a"="1";"b"="2";"#).unwrap();
    assert_eq!(m.len(), 2);
    assert_eq!(m.get(b"\"b\"").unwrap(), &b"\"2\"".to_vec());
}

#[test]
fn missing_key_returns_none() {
    let m = parse(br#""a"="1";"#).unwrap();
    assert!(m.get(b"\"b\"").is_none());
    assert!(!m.contains_key(b"\"b\""));
    assert!(m.contains_key(b"\"a\""));
}

#[test]
fn many_pairs_single_pass() {
    let mut text = Vec::new();
    for i in 0..1000 {
        text.extend_from_slice(format!("\"key{}\" = \"value{}\";\n", i, i).as_bytes());
    }
    let m = parse(&text).unwrap();
    assert_eq!(m.len(), 1000);
    assert_eq!(m.get(b"\"key999\"").unwrap(), &b"\"value999\"".to_vec());
}
