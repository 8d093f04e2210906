use arread::header::Header;

fn padded(s: &str, width: usize) -> Vec<u8> {
    let mut v = s.as_bytes().to_vec();
    assert!(v.len() <= width);
    while v.len() < width {
        v.push(b' ');
    }
    v
}

fn block(name: &str, date: &str, uid: &str, gid: &str, mode: &str, size: &str) -> Vec<u8> {
    let mut v = Vec::new();
    v.extend_from_slice(&padded(name, 16));
    v.extend_from_slice(&padded(date, 12));
    v.extend_from_slice(&padded(uid, 6));
    v.extend_from_slice(&padded(gid, 6));
    v.extend_from_slice(&padded(mode, 8));
    v.extend_from_slice(&padded(size, 10));
    v.extend_from_slice(b"`\n");
    v
}

#[test]
fn valid_iff_marker() {
    let good = block("hello.o", "1234567890", "0", "0", "100644", "4");
    let h = Header::from_bytes(&good);
    assert!(h.valid());

    // Flip one marker byte: valid() must turn false.
    let mut bad = good.clone();
    bad[58] = b'x';
    assert!(!Header::from_bytes(&bad).valid());
    let mut bad2 = good.clone();
    bad2[59] = b' ';
    assert!(!Header::from_bytes(&bad2).valid());

    // An arbitrary 60-byte block is valid exactly when the last two bytes
    // are the marker, whatever the other bytes hold.
    let mut blk = vec![0u8; 60];
    for i in 0..60 {
        blk[i] = (i as u8).wrapping_mul(37).wrapping_add(11);
    }
    assert_eq!(
        Header::from_bytes(&blk).valid(),
        blk[58] == b'`' && blk[59] == b'\n'
    );
    blk[58] = b'`';
    blk[59] = b'\n';
    assert!(Header::from_bytes(&blk).valid());
}

#[test]
fn field_round_trip() {
    let b = block("name.o", "1446786132", "1000", "20", "100644", "4");
    let h = Header::from_bytes(&b);
    assert_eq!(h.name(), b"name.o");
    assert_eq!(h.date(), Some(1446786132));
    assert_eq!(h.uid(), Some(1000));
    assert_eq!(h.gid(), Some(20));
    assert_eq!(h.mode(), Some(0o100644));
    assert_eq!(h.size(), Some(4));
}

#[test]
fn size_field_exact_example() {
    let b = block("x", "0", "0", "0", "0", "4");
    // The raw size field is the digit `4` padded to ten bytes.
    let h = Header::from_bytes(&b);
    assert_eq!(&h.size, b"4         ");
    assert_eq!(h.size(), Some(4));
}

#[test]
fn mode_field_exact_example() {
    let b = block("x", "0", "0", "0", "100644", "0");
    let h = Header::from_bytes(&b);
    assert_eq!(&h.mode, b"100644  ");
    assert_eq!(h.mode(), Some(0o100644));
}

#[test]
fn soft_fields_absent_on_garbage() {
    let b = block("x", "not-a-date", "a1", "-3", "999", "12");
    let h = Header::from_bytes(&b);
    assert_eq!(h.date(), None);
    assert_eq!(h.uid(), None);
    assert_eq!(h.gid(), None);
    // `9` is no octal digit.
    assert_eq!(h.mode(), None);
    // size still parses: the member remains decodable.
    assert_eq!(h.size(), Some(12));
}

#[test]
fn empty_fields_absent() {
    let b = block("x", "", "", "", "", "");
    let h = Header::from_bytes(&b);
    assert_eq!(h.date(), None);
    assert_eq!(h.uid(), None);
    assert_eq!(h.gid(), None);
    assert_eq!(h.mode(), None);
    assert_eq!(h.size(), None);
}

#[test]
fn name_keeps_trailing_slash() {
    let b = block("dir/file.o/", "0", "0", "0", "0", "0");
    let h = Header::from_bytes(&b);
    assert_eq!(h.name(), b"dir/file.o/");
}

#[test]
fn zero_header_and_as_bytes() {
    let z = Header::zero();
    let bytes = z.as_bytes();
    assert_eq!(bytes.len(), 60);
    assert!(bytes.iter().all(|&b| b == 0));
    assert!(!z.valid());

    let b = block("a.o", "7", "8", "9", "644", "2");
    let h = Header::from_bytes(&b);
    assert_eq!(h.as_bytes(), b);
}

#[test]
fn large_values_parse() {
    let b = block("x", "0", "999999", "0", "0", "9999999999");
    let h = Header::from_bytes(&b);
    assert_eq!(h.size(), Some(9_999_999_999));
    assert_eq!(h.uid(), Some(999_999));
    let b2 = block("x", "0", "", "0", "0", "0");
    let h2 = Header::from_bytes(&b2);
    assert_eq!(h2.uid(), None);
}
