use save_editor::codec::decompress_payload;
use save_editor::error::SaveEditorError;

#[test]
fn compress_then_decompress_returns_the_input() {
    let data: Vec<u8> = b"aaaaaaaaaaaaaaaaaaaaaaaaaaaaaaaaaaaaaaaaaaaaaaaa".to_vec();
    let compressed = lzf::compress(&data).unwrap();
    assert!(compressed.len() <= data.len());
    let back = decompress_payload(&compressed).unwrap();
    assert_eq!(back, data);
}

#[test]
fn roundtrip_of_structured_text() {
    let mut data = Vec::new();
    for i in 0..2000u32 {
        data.extend_from_slice(format!("<node id=\"{}\"/>\n", i % 37).as_bytes());
    }
    let compressed = lzf::compress(&data).unwrap();
    let back = decompress_payload(&compressed).unwrap();
    assert_eq!(back, data);
}

#[test]
fn garbage_stream_fails_to_decompress() {
    let data = b"Lorem ipsum dolor sit amet".to_vec();
    assert!(matches!(
        decompress_payload(&data),
        Err(SaveEditorError::BadFormat)
    ));
}

#[test]
fn empty_stream_fails_to_decompress() {
    let data = Vec::new();
    assert!(matches!(
        decompress_payload(&data),
        Err(SaveEditorError::BadFormat)
    ));
}

#[test]
fn decompression_beyond_the_bound_is_bad_format() {
    // A run of zeros one byte past the bound compresses to a tiny stream
    // whose decompressed size exceeds the configured maximum.
    let oversized = vec![0u8; (1usize << 25) + 1];
    let compressed = lzf::compress(&oversized).unwrap();
    assert!(compressed.len() < oversized.len());
    assert!(matches!(
        decompress_payload(&compressed),
        Err(SaveEditorError::BadFormat)
    ));
}

#[test]
fn payload_at_the_bound_still_decompresses() {
    let data = vec![0u8; 1usize << 25];
    let compressed = lzf::compress(&data).unwrap();
    let back = decompress_payload(&compressed).unwrap();
    assert_eq!(back.len(), data.len());
    assert_eq!(back, data);
}
