use arread::error::ArError;
use arread::reader::MemberReader;

fn padded(s: &str, width: usize) -> Vec<u8> {
    let mut v = s.as_bytes().to_vec();
    assert!(v.len() <= width);
    while v.len() < width {
        v.push(b' ');
    }
    v
}

fn member(name: &str, payload: &[u8]) -> Vec<u8> {
    let mut v = Vec::new();
    v.extend_from_slice(&padded(name, 16));
    v.extend_from_slice(&padded("0", 12));
    v.extend_from_slice(&padded("0", 6));
    v.extend_from_slice(&padded("0", 6));
    v.extend_from_slice(&padded("644", 8));
    v.extend_from_slice(&padded(&payload.len().to_string(), 10));
    v.extend_from_slice(b"`\n");
    v.extend_from_slice(payload);
    v
}

#[test]
fn magic_only_ends_cleanly() {
    let mut r = MemberReader::new(b"!<arch>\n".to_vec()).unwrap();
    let got = r.next();
    assert!(matches!(got, Ok(None)));
    // Asking again still ends cleanly.
    assert!(matches!(r.next(), Ok(None)));
}

#[test]
fn bad_magic_is_format_error() {
    assert_eq!(MemberReader::new(b"!<arch>x".to_vec()).err(), Some(ArError::Format));
    assert_eq!(MemberReader::new(b"!<arch".to_vec()).err(), Some(ArError::Format));
    assert_eq!(MemberReader::new(Vec::new()).err(), Some(ArError::Format));
}

#[test]
fn one_member_decodes() {
    let mut data = b"!<arch>\n".to_vec();
    data.extend_from_slice(&member("a.o", b"hi\n!"));
    let mut r = MemberReader::new(data).unwrap();
    let m = r.next().unwrap().unwrap();
    assert_eq!(m.offset, 8);
    assert_eq!(m.header.name(), b"a.o");
    assert_eq!(m.header.size(), Some(4));
    assert_eq!(m.payload, b"hi\n!");
    assert!(matches!(r.next(), Ok(None)));
}

#[test]
fn truncated_header_is_truncation_error() {
    let mut data = b"!<arch>\n".to_vec();
    data.extend_from_slice(&padded("a.o", 16));
    // Only 16 of the 60 header bytes are present.
    let mut r = MemberReader::new(data).unwrap();
    assert_eq!(r.next().err(), Some(ArError::Truncation));
}

#[test]
fn declared_size_beyond_stream_is_truncation_error() {
    let mut data = b"!<arch>\n".to_vec();
    let mut m = member("a.o", b"abc");
    // Claim 100 bytes but supply 3.
    let size_field = padded("100", 10);
    m[48..58].copy_from_slice(&size_field);
    data.extend_from_slice(&m);
    let mut r = MemberReader::new(data).unwrap();
    assert_eq!(r.next().err(), Some(ArError::Truncation));
}

#[test]
fn bad_marker_is_format_error() {
    let mut data = b"!<arch>\n".to_vec();
    let mut m = member("a.o", b"abc");
    m[59] = b'x';
    data.extend_from_slice(&m);
    let mut r = MemberReader::new(data).unwrap();
    assert_eq!(r.next().err(), Some(ArError::Format));
}

#[test]
fn unparseable_size_is_format_error() {
    let mut data = b"!<arch>\n".to_vec();
    let mut m = member("a.o", b"abc");
    m[48..58].copy_from_slice(&padded("3x", 10));
    data.extend_from_slice(&m);
    let mut r = MemberReader::new(data).unwrap();
    assert_eq!(r.next().err(), Some(ArError::Format));
}

#[test]
fn odd_size_consumes_one_pad_byte() {
    let mut data = b"!<arch>\n".to_vec();
    data.extend_from_slice(&member("odd.o", b"12345"));
    data.push(b'\n'); // the alignment pad
    data.extend_from_slice(&member("next.o", b"xy"));
    let mut r = MemberReader::new(data).unwrap();
    let m1 = r.next().unwrap().unwrap();
    assert_eq!(m1.payload, b"12345");
    // The pad byte is not part of the payload, and the next header is
    // found right after it.
    let m2 = r.next().unwrap().unwrap();
    assert_eq!(m2.header.name(), b"next.o");
    assert_eq!(m2.offset, 8 + 60 + 5 + 1);
    assert!(matches!(r.next(), Ok(None)));
}

#[test]
fn missing_pad_byte_breaks_the_next_parse() {
    let mut data = b"!<arch>\n".to_vec();
    data.extend_from_slice(&member("odd.o", b"12345"));
    // No pad byte here: the reader consumes the next header's first byte
    // as the pad, so the following header read is off by one and fails.
    data.extend_from_slice(&member("next.o", b"xy"));
    let mut r = MemberReader::new(data).unwrap();
    let m1 = r.next().unwrap().unwrap();
    assert_eq!(m1.payload, b"12345");
    assert!(r.next().is_err());
}

#[test]
fn odd_final_member_without_pad_is_tolerated() {
    let mut data = b"!<arch>\n".to_vec();
    data.extend_from_slice(&member("last.o", b"abc"));
    // The stream ends right after the odd payload: no pad byte exists.
    let mut r = MemberReader::new(data).unwrap();
    let m = r.next().unwrap().unwrap();
    assert_eq!(m.payload, b"abc");
    assert!(matches!(r.next(), Ok(None)));
}
