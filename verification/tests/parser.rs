use journal_export::ParseError;
use journal_export::batch::Batch;
use journal_export::entry::Entry;
use journal_export::line::Line;
use journal_export::parser::parse;

fn get_simple_entry() -> Entry {
    let mut entry = Entry::new();
    entry.add_line(Line::new("key".into(), "value".into()));
    entry.add_line(Line::new("key2".into(), "value2".into()));
    entry.add_line(Line::new("key3".into(), "value3".into()));
    entry
}

fn binary_block(key: &str, length_bytes: &[u8; 8], value: &[u8]) -> Vec<u8> {
    let mut block = Vec::new();
    block.extend_from_slice(key.as_bytes());
    block.push(b'\n');
    block.extend_from_slice(length_bytes);
    block.extend_from_slice(value);
    block.extend_from_slice(b"\n\n");
    block
}

#[test]
fn simple() {
    let input = "key=value\nkey2=value2\nkey3=value3";
    let mut expected = Batch::new();
    expected.add_entry(get_simple_entry());

    let result = parse(input.as_bytes().to_vec()).unwrap();

    assert_eq!(result, expected);
}

#[test]
fn simple_multiple_entries() {
    let input = "key=value\nkey2=value2\nkey3=value3\n\nkey=value\nkey2=value2\nkey3=value3";
    let mut expected = Batch::new();
    expected.add_entry(get_simple_entry());
    expected.add_entry(get_simple_entry());

    let result = parse(input.as_bytes().to_vec()).unwrap();

    assert_eq!(result, expected);
}

#[test]
fn simple_binary_serialization() {
    let mut input = b"key=value\n".to_vec();
    input.extend_from_slice(&binary_block("key2", &[0x0B, 0, 0, 0, 0, 0, 0, 0], b"value2"));
    input.extend_from_slice(b"key3=value3");
    let mut expected = Batch::new();
    expected.add_entry(get_simple_entry());

    let result = parse(input).unwrap();

    assert_eq!(result, expected);
}

#[test]
fn multiple_binary_serialization() {
    let mut input = b"key=value\n".to_vec();
    input.extend_from_slice(&binary_block("key2", &[0x0B, 0, 0, 0, 0, 0, 0, 0], b"value2"));
    input.extend_from_slice(b"key3=value3\n\nkey=value\n");
    input.extend_from_slice(&binary_block("key2", &[0x0B, 0, 0, 0, 0, 0, 0, 0], b"value2"));
    input.extend_from_slice(b"key3=value3");
    let mut expected = Batch::new();
    expected.add_entry(get_simple_entry());
    expected.add_entry(get_simple_entry());

    let result = parse(input).unwrap();

    assert_eq!(result, expected);
}

#[test]
fn single_field_without_terminator() {
    let result = parse(b"k=v".to_vec()).unwrap();

    let mut entry = Entry::new();
    entry.add_line(Line::new("k".into(), "v".into()));
    let mut expected = Batch::new();
    expected.add_entry(entry);
    assert_eq!(result, expected);
}

#[test]
fn separator_split_is_first_occurrence() {
    let result = parse(b"key=value=value1=value2".to_vec()).unwrap();

    assert_eq!(result.get_entries().len(), 1);
    let lines = result.get_entries()[0].get_lines();
    assert_eq!(lines.len(), 1);
    assert_eq!(lines[0].get_key().as_str(), "key");
    assert_eq!(lines[0].get_value().as_str(), "value=value1=value2");
}

#[test]
fn malformed_line_fails_whole_parse() {
    let result = parse(b"key!value".to_vec());

    assert_eq!(
        result,
        Err(ParseError::MalformedLine { line: b"key!value".to_vec() })
    );
}

#[test]
fn two_records_blank_separated() {
    let result = parse(b"key=value\n\nkey=value".to_vec()).unwrap();

    let mut expected = Batch::new();
    for _ in 0..2 {
        let mut entry = Entry::new();
        entry.add_line(Line::new("key".into(), "value".into()));
        expected.add_entry(entry);
    }
    assert_eq!(result, expected);
}

#[test]
fn terminated_final_record_needs_blank_line() {
    // A record is committed only by a blank line or by leftover bytes at end
    // of input: with a trailing newline and no blank line, the second record
    // stays pending and is discarded.
    let result = parse(b"key=value\n\nkey=value\n".to_vec()).unwrap();

    let mut entry = Entry::new();
    entry.add_line(Line::new("key".into(), "value".into()));
    let mut expected = Batch::new();
    expected.add_entry(entry);
    assert_eq!(result, expected);
}

#[test]
fn binary_field_ignores_length_bytes() {
    // The same record comes out whatever the 8 nominal length bytes hold.
    for length_bytes in [
        [0x0B, 0, 0, 0, 0, 0, 0, 0],
        [0xFF; 8],
        [b'=', b'x', 0x01, 0x02, b'\n', 0x03, 0x04, 0x05],
    ] {
        let mut input = binary_block("key2", &length_bytes, b"value2");
        input.push(b'\n');

        let result = parse(input).unwrap();

        let mut entry = Entry::new();
        entry.add_line(Line::new("key2".into(), "value2".into()));
        let mut expected = Batch::new();
        expected.add_entry(entry);
        assert_eq!(result, expected);
    }
}

#[test]
fn binary_value_keeps_lone_newlines() {
    let mut input = binary_block("key2", &[7, 0, 0, 0, 0, 0, 0, 0], b"va\nlue2");
    input.push(b'\n');

    let result = parse(input).unwrap();

    let mut entry = Entry::new();
    entry.add_line(Line::new("key2".into(), "va\nlue2".into()));
    let mut expected = Batch::new();
    expected.add_entry(entry);
    assert_eq!(result, expected);
}

#[test]
fn concatenation_of_closed_inputs() {
    let a = b"a=1\n\n".to_vec();
    let b = b"b=2\n\n".to_vec();
    let mut ab = a.clone();
    ab.extend_from_slice(&b);

    let parsed_a = parse(a).unwrap();
    let parsed_b = parse(b).unwrap();
    let parsed_ab = parse(ab).unwrap();

    let mut expected_entries = parsed_a.get_entries().clone();
    expected_entries.extend(parsed_b.get_entries().clone());
    assert_eq!(parsed_ab.get_entries(), &expected_entries);
    assert_eq!(parsed_ab.get_entries().len(), 2);
}

#[test]
fn separator_after_field_line_starts_new_field() {
    // Right after a completed field line, a line beginning with the
    // separator byte is a new text field line with an empty key.
    let result = parse(b"a=1\n=2".to_vec()).unwrap();

    let mut entry = Entry::new();
    entry.add_line(Line::new("a".into(), "1".into()));
    entry.add_line(Line::new("".into(), "2".into()));
    let mut expected = Batch::new();
    expected.add_entry(entry);
    assert_eq!(result, expected);
}

#[test]
fn every_blank_line_closes_a_record() {
    // A second blank line closes the (now empty) record in progress.
    let result = parse(b"key=value\n\n\n".to_vec()).unwrap();

    let mut entry = Entry::new();
    entry.add_line(Line::new("key".into(), "value".into()));
    let mut expected = Batch::new();
    expected.add_entry(entry);
    expected.add_entry(Entry::new());
    assert_eq!(result, expected);
}

#[test]
fn empty_input_is_empty_batch() {
    let result = parse(Vec::new()).unwrap();
    assert_eq!(result, Batch::new());
}

#[test]
fn invalid_text_in_value_is_replaced() {
    let result = parse(b"key=\xFF\xFEvalue".to_vec()).unwrap();

    let lines = result.get_entries()[0].get_lines();
    assert_eq!(lines[0].get_value().as_str(), "\u{FFFD}\u{FFFD}value");
}
