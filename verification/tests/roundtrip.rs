//! Serializing a mapping back out and re-parsing it.

use dot_strings::parse;
use dot_strings::StringsMap;

#[test]
fn reparse_serialized_mapping() {
    let text = b"/* c */ \"a\" = \"1\";\n\"b\" = \"2 /* not a comment */\";\n\"a\\\"x\" = \"\\U0041\";";
    let m = parse(text).unwrap();
    let written = m.to_document();
    let again = parse(&written).unwrap();
    assert_eq!(again.len(), m.len());
    assert_eq!(again.get(b"\"a\"").unwrap(), &b"\"1\"".to_vec());
    assert_eq!(
        again.get(b"\"b\"").unwrap(),
        &b"\"2 /* not a comment */\"".to_vec()
    );
    assert_eq!(again.get(b"\"a\\\"x\"").unwrap(), &b"\"\\U0041\"".to_vec());
    // writing the re-parsed mapping out again gives the same document
    assert_eq!(again.to_document(), written);
}

#[test]
fn document_layout() {
    let mut m = StringsMap::new();
    m.insert(b"\"k\"".to_vec(), b"\"v\"".to_vec());
    assert_eq!(m.to_document(), b"\"k\" = \"v\";\n".to_vec());
}

#[test]
fn insert_overwrites() {
    let mut m = StringsMap::new();
    m.insert(b"\"k\"".to_vec(), b"\"1\"".to_vec());
    m.insert(b"\"k\"".to_vec(), b"\"2\"".to_vec());
    m.insert(b"\"j\"".to_vec(), b"\"3\"".to_vec());
    assert_eq!(m.len(), 2);
    assert_eq!(m.get(b"\"k\"").unwrap(), &b"\"2\"".to_vec());
    let (k, v) = m.entry_at(0);
    assert_eq!(k, &b"\"k\"".to_vec());
    assert_eq!(v, &b"\"2\"".to_vec());
}

#[test]
fn duplicate_keys_round_trip() {
    let m = parse(br#""a"="1";"a"="2";"#).unwrap();
    let again = parse(&m.to_document()).unwrap();
    assert_eq!(again.len(), 1);
    assert_eq!(again.get(b"\"a\"").unwrap(), &b"\"2\"".to_vec());
}
