use save_editor::error::SaveEditorError;
use save_editor::scanner::header_length;

#[test]
fn scanner_returns_the_header_length_exactly() {
    let header = b"XLZF\nDataSize:=5\n".to_vec();
    let mut container = header.clone();
    // 0x81 is a continuation byte: it cannot continue the text stream.
    container.extend_from_slice(&[0x81, 0x00, 0x42, 0x0a, 0x99]);
    assert_eq!(header_length(&container).unwrap(), header.len());
}

#[test]
fn scanner_rejects_an_empty_stream() {
    let container: Vec<u8> = Vec::new();
    assert!(matches!(
        header_length(&container),
        Err(SaveEditorError::BadFormat)
    ));
}

#[test]
fn scanner_rejects_a_pure_text_stream() {
    let container = b"XLZF\nDataSize:=5\nSaveDataSize:=3\n".to_vec();
    assert!(matches!(
        header_length(&container),
        Err(SaveEditorError::BadFormat)
    ));
}

#[test]
fn scanner_stops_at_the_first_binary_line() {
    // The second line starts the payload; a later newline inside the binary
    // data does not move the boundary back.
    let mut container = b"Header line\n".to_vec();
    container.extend_from_slice(&[0xc0, 0x0a, 0x41, 0x42]);
    assert_eq!(header_length(&container).unwrap(), 12);
}

#[test]
fn scanner_offset_counts_bytes_not_characters() {
    // A multi-byte character in a header line still counts by bytes.
    let header = "Wojciech Niedźwiedź\n".as_bytes().to_vec();
    let mut container = header.clone();
    container.extend_from_slice(&[0xff, 0x10]);
    assert_eq!(header_length(&container).unwrap(), header.len());
}
