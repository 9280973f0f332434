use journal_export::ParseError;
use journal_export::line::Line;

#[test]
fn test_line_into() {
    let line = Line::from_bytes(&b"key=value".to_vec()).unwrap();
    assert_eq!(line, Line::new("key".into(), "value".into()));
}

#[test]
fn test_line_into_more_equals() {
    let line = Line::from_bytes(&b"key=value=value1=value2".to_vec()).unwrap();
    assert_eq!(line, Line::new("key".into(), "value=value1=value2".into()));
}

#[test]
fn test_line_into_fails() {
    let r = Line::from_bytes(&b"key!value".to_vec());
    assert_eq!(
        r,
        Err(ParseError::MalformedLine { line: b"key!value".to_vec() })
    );
}

#[test]
fn test_line_getters() {
    let line = Line::new("key".into(), "value".into());
    assert_eq!(line.get_key().as_str(), "key");
    assert_eq!(line.get_value().as_str(), "value");
}

#[test]
fn test_line_invalid_text_replaced() {
    let line = Line::from_bytes(&b"key=\xFFvalue".to_vec()).unwrap();
    assert_eq!(line.get_key().as_str(), "key");
    assert_eq!(line.get_value().as_str(), "\u{FFFD}value");
}

#[test]
fn test_line_empty_key_and_value() {
    let line = Line::from_bytes(&b"=".to_vec()).unwrap();
    assert_eq!(line, Line::new("".into(), "".into()));
}
