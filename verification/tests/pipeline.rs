use save_editor::error::SaveEditorError;
use save_editor::pipeline::{open_container, rebuild_container, split_container};

fn padded_xml(len: usize) -> Vec<u8> {
    let mut out = Vec::new();
    while out.len() < len {
        out.extend_from_slice(b"<xml/>");
    }
    out.truncate(len);
    out
}

#[test]
fn end_to_end_edit_refreshes_both_size_fields() {
    // Build a container whose header declares stale sizes, edit the payload
    // to 120 bytes, and check both size fields against the real lengths.
    let plain = padded_xml(100);
    let compressed = lzf::compress(&plain).unwrap();
    let mut container = b"XLZF\nDataSize:=100\nSaveDataSize:=50\n".to_vec();
    container.extend_from_slice(&compressed);

    let (header, decompressed) = open_container(&container).unwrap();
    assert_eq!(header, b"XLZF\nDataSize:=100\nSaveDataSize:=50\n".to_vec());
    assert_eq!(decompressed, plain);

    let edited = padded_xml(120);
    let new_compressed = lzf::compress(&edited).unwrap();
    let out = rebuild_container(header, &edited, new_compressed.clone()).unwrap();

    let expected_header = format!(
        "XLZF\nDataSize:=120\nSaveDataSize:={}",
        new_compressed.len()
    );
    let mut expected = expected_header.clone().into_bytes();
    expected.extend_from_slice(&new_compressed);
    assert_eq!(out, expected);
    assert_eq!(out.len(), expected_header.len() + new_compressed.len());
}

#[test]
fn split_container_partitions_the_bytes() {
    let mut container = b"K:=v\n".to_vec();
    container.extend_from_slice(&[0xfe, 0xff, 0x00]);
    let (header, payload) = split_container(&container).unwrap();
    assert_eq!(header, b"K:=v\n".to_vec());
    assert_eq!(payload, vec![0xfe, 0xff, 0x00]);
    let mut rejoined = header.clone();
    rejoined.extend_from_slice(&payload);
    assert_eq!(rejoined, container);
}

#[test]
fn open_container_rejects_a_corrupt_payload() {
    let mut container = b"K:=v\n".to_vec();
    container.extend_from_slice(&[0xfe, 0xff, 0x00]);
    assert!(matches!(
        open_container(&container),
        Err(SaveEditorError::BadFormat)
    ));
}

#[test]
fn rebuild_rejects_a_header_that_is_not_utf8() {
    let header = vec![0x41, 0x0a, 0x80];
    let edited = padded_xml(64);
    let compressed = lzf::compress(&edited).unwrap();
    assert!(matches!(
        rebuild_container(header, &edited, compressed),
        Err(SaveEditorError::BadFormat)
    ));
}

#[test]
fn rebuild_rejects_a_payload_that_does_not_match() {
    // The compressed bytes must decompress to exactly the edited payload:
    // a stale recompression of different bytes is refused.
    let header = b"XLZF\nDataSize:=1\nSaveDataSize:=1\n".to_vec();
    let edited = padded_xml(90);
    let other = padded_xml(96);
    let stale = lzf::compress(&other).unwrap();
    assert!(matches!(
        rebuild_container(header, &edited, stale),
        Err(SaveEditorError::BadFormat)
    ));
}

#[test]
fn rebuild_rejects_a_garbage_compressed_payload() {
    let header = b"XLZF\nDataSize:=1\nSaveDataSize:=1\n".to_vec();
    let edited = padded_xml(90);
    let garbage = b"not an lzf stream".to_vec();
    assert!(matches!(
        rebuild_container(header, &edited, garbage),
        Err(SaveEditorError::BadFormat)
    ));
}

#[test]
fn rebuilding_twice_with_the_same_payload_is_stable() {
    let header = b"XLZF\nDataSize:=1\nSaveDataSize:=1\n".to_vec();
    let edited = padded_xml(90);
    let compressed = lzf::compress(&edited).unwrap();
    let first = rebuild_container(header, &edited, compressed.clone()).unwrap();
    // Rebuilding from the refreshed header and the same payload changes
    // nothing: the size fields already hold the right values.
    let boundary = first.len() - compressed.len();
    let refreshed_header = first[..boundary].to_vec();
    let second = rebuild_container(refreshed_header, &edited, compressed).unwrap();
    assert_eq!(second, first);
}
