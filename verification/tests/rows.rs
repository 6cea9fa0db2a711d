use filesplit::cli::FileFormat;
use filesplit::error::FileSplitError;
use filesplit::splitter::{csv_row_bytes, header_line, resolve_delimiter, text_row_bytes};

fn strings(v: &[&str]) -> Vec<String> {
    v.iter().map(|s| s.to_string()).collect()
}

#[test]
fn header_is_written_as_a_csv_record() {
    assert_eq!(header_line(&strings(&["id", "name", "value", "notes"]), b','), b"id,name,value,notes\n".to_vec());
    assert_eq!(header_line(&strings(&["a", "b"]), b'\t'), b"a\tb\n".to_vec());
    assert_eq!(header_line(&strings(&["a", "b,c"]), b','), b"a,\"b,c\"\n".to_vec());
    assert_eq!(header_line(&strings(&["a, b"]), b','), b"\"a, b\"\n".to_vec());
    assert_eq!(header_line(&strings(&["say \"hi\""]), b','), b"\"say \"\"hi\"\"\"\n".to_vec());
}

#[test]
fn csv_rows_keep_quoted_fields_whole() {
    let row = csv_row_bytes(&strings(&["0", "Smith, John", "0", "note with, comma"]), b',', 1).unwrap();
    assert_eq!(row, b"0,\"Smith, John\",0,\"note with, comma\"\n".to_vec());
    let row = csv_row_bytes(&strings(&["7", "value with \"quotes\""]), b',', 2).unwrap();
    assert_eq!(row, b"7,\"value with \"\"quotes\"\"\"\n".to_vec());
    let row = csv_row_bytes(&strings(&["a", "b"]), b'\t', 3).unwrap();
    assert_eq!(row, b"a\tb\n".to_vec());
}

#[test]
fn text_rows_end_with_a_line_feed() {
    assert_eq!(text_row_bytes("Line number 1"), b"Line number 1\n".to_vec());
    assert_eq!(text_row_bytes(""), b"\n".to_vec());
    assert_eq!(text_row_bytes("\u{e9}").len(), 3);
}

#[test]
fn delimiter_must_be_ascii_unless_tsv() {
    assert_eq!(resolve_delimiter(&FileFormat::Tsv, ';').unwrap(), b'\t');
    assert_eq!(resolve_delimiter(&FileFormat::Csv, ';').unwrap(), b';');
    assert_eq!(resolve_delimiter(&FileFormat::Tsv, '\u{e9}').unwrap(), b'\t');
    match resolve_delimiter(&FileFormat::Csv, '\u{e9}') {
        Err(FileSplitError::InvalidDelimiter(d)) => assert_eq!(d, "\u{e9}"),
        other => panic!("expected InvalidDelimiter, got {:?}", other),
    }
}

#[test]
fn records_that_would_be_empty_are_written_as_two_quotes() {
    assert_eq!(csv_row_bytes(&strings(&[""]), b',', 1).unwrap(), b"\"\"\n".to_vec());
    assert_eq!(csv_row_bytes(&Vec::new(), b',', 1).unwrap(), b"\"\"\n".to_vec());
    assert_eq!(csv_row_bytes(&strings(&["", ""]), b',', 1).unwrap(), b",\n".to_vec());
    assert_eq!(csv_row_bytes(&strings(&["a\rb", "c\nd"]), b';', 1).unwrap(), b"\"a\rb\";\"c\nd\"\n".to_vec());
    assert_eq!(csv_row_bytes(&strings(&["x;y", "x,y"]), b';', 1).unwrap(), b"\"x;y\";x,y\n".to_vec());
}

#[test]
fn written_records_read_back_field_for_field() {
    let records = vec![
        strings(&["id", "a,b", "say \"hi\""]),
        strings(&["", "line\nbreak", "x\ry"]),
        strings(&[""]),
        strings(&["plain", "", ""]),
    ];
    let mut bytes = Vec::new();
    for (i, r) in records.iter().enumerate() {
        bytes.extend(csv_row_bytes(r, b',', i as u64 + 1).unwrap());
    }
    let mut reader = csv::ReaderBuilder::new().has_headers(false).flexible(true).from_reader(&bytes[..]);
    let back: Vec<Vec<String>> = reader
        .records()
        .map(|r| r.unwrap().iter().map(|f| f.to_string()).collect())
        .collect();
    assert_eq!(back, records);
}

#[test]
fn a_copied_header_reads_back_as_its_fields() {
    let header = strings(&["a", "b,c", "d\"e"]);
    let bytes = header_line(&header, b';');
    let mut reader = csv::ReaderBuilder::new().delimiter(b';').from_reader(&bytes[..]);
    let read: Vec<String> = reader.headers().unwrap().iter().map(|f| f.to_string()).collect();
    assert_eq!(read, header);
}
