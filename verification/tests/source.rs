use flate2::write::GzEncoder;
use flate2::Compression;
use gtk_rlottie::source::read_source;
use gtk_rlottie::source::source_from_inflated;
use gtk_rlottie::source::DecodeError;
use std::io::Write;

fn gzip(bytes: &[u8]) -> Vec<u8> {
    let mut encoder = GzEncoder::new(Vec::new(), Compression::default());
    encoder.write_all(bytes).unwrap();
    encoder.finish().unwrap()
}

#[test]
fn compressed_source_is_inflated() {
    let text = "{\"v\":\"5.5.2\",\"fr\":60,\"ip\":0,\"op\":10,\"w\":100,\"h\":100,\"layers\":[]}";
    let packed = gzip(text.as_bytes());
    assert_ne!(packed, text.as_bytes());
    assert_eq!(read_source(Some(packed)), Ok(text.to_string()));
}

#[test]
fn empty_compressed_source_is_empty_text() {
    assert_eq!(read_source(Some(gzip(b""))), Ok(String::new()));
}

#[test]
fn plain_text_is_no_compressed_source() {
    let plain = b"{\"v\":\"5.5.2\"}".to_vec();
    assert_eq!(read_source(Some(plain)), Err(DecodeError::Unsupported));
}

#[test]
fn no_bytes_are_no_compressed_source() {
    assert_eq!(read_source(Some(Vec::new())), Err(DecodeError::Unsupported));
}

#[test]
fn truncated_compressed_source_is_unsupported() {
    let mut packed = gzip(b"some text that is long enough to be cut in the middle of it");
    packed.truncate(packed.len() / 2);
    assert_eq!(read_source(Some(packed)), Err(DecodeError::Unsupported));
}

#[test]
fn compressed_bytes_that_are_no_text_are_unsupported() {
    assert_eq!(read_source(Some(gzip(&[0xff, 0xfe, 0x80]))), Err(DecodeError::Unsupported));
}

#[test]
fn unreadable_source_is_not_found() {
    assert_eq!(read_source(None), Err(DecodeError::NotFound));
}

#[test]
fn inflated_text_is_the_source() {
    assert_eq!(source_from_inflated(Some("abc".to_string())), Ok("abc".to_string()));
    assert_eq!(source_from_inflated(None), Err(DecodeError::Unsupported));
}

#[test]
fn decode_errors_in_words() {
    assert_eq!(DecodeError::NotFound.message(), "file not found");
    assert_eq!(DecodeError::Unsupported.message(), "unsupported file type");
}
