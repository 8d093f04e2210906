use arread::archive::read_archive;
use arread::error::ArError;

fn padded(s: &str, width: usize) -> Vec<u8> {
    let mut v = s.as_bytes().to_vec();
    assert!(v.len() <= width);
    while v.len() < width {
        v.push(b' ');
    }
    v
}

fn member(name: &str, payload: &[u8]) -> Vec<u8> {
    let mut v = Vec::new();
    v.extend_from_slice(&padded(name, 16));
    v.extend_from_slice(&padded("0", 12));
    v.extend_from_slice(&padded("0", 6));
    v.extend_from_slice(&padded("0", 6));
    v.extend_from_slice(&padded("644", 8));
    v.extend_from_slice(&padded(&payload.len().to_string(), 10));
    v.extend_from_slice(b"`\n");
    v.extend_from_slice(payload);
    if payload.len() % 2 == 1 {
        v.push(b'\n');
    }
    v
}

#[test]
fn end_to_end_with_both_tables() {
    // Layout: magic at 0; `/` member at 8; `//` member after it; one
    // ordinary member referencing both tables.
    let name_blob = b"long_filename_one.o\n".to_vec();
    let mut symtab = Vec::new();
    symtab.extend_from_slice(&1u32.to_be_bytes());
    // The ordinary member's header offset, computed below, is 162.
    symtab.extend_from_slice(&162u32.to_be_bytes());
    symtab.extend_from_slice(b"alpha\0");

    let mut data = b"!<arch>\n".to_vec();
    data.extend_from_slice(&member("/", &symtab));
    assert_eq!(data.len(), 8 + 60 + 14);
    data.extend_from_slice(&member("//", &name_blob));
    assert_eq!(data.len(), 162);
    data.extend_from_slice(&member("/0", b"object bytes"));

    let a = read_archive(data).unwrap();
    assert_eq!(a.members.len(), 1);
    let m = &a.members[0];
    assert_eq!(m.offset, 162);
    assert_eq!(m.name, b"long_filename_one.o");
    assert_eq!(m.payload, b"object bytes");

    let syms = a.symbols.as_ref().unwrap().symbols_for_offset(m.offset);
    assert!(!syms.is_empty());
    assert_eq!(syms, vec![b"alpha".to_vec()]);
}

#[test]
fn archive_with_only_magic_is_empty() {
    let a = read_archive(b"!<arch>\n".to_vec()).unwrap();
    assert!(a.members.is_empty());
    assert!(a.symbols.is_none());
}

#[test]
fn archive_bad_magic_fails() {
    assert_eq!(read_archive(b"not-an-archive".to_vec()).err(), Some(ArError::Format));
}

#[test]
fn archive_ordinary_members_only() {
    let mut data = b"!<arch>\n".to_vec();
    data.extend_from_slice(&member("one.o", b"11"));
    data.extend_from_slice(&member("two.o", b"222"));
    data.extend_from_slice(&member("three.o", b"4444"));
    let a = read_archive(data).unwrap();
    assert!(a.symbols.is_none());
    assert_eq!(a.members.len(), 3);
    assert_eq!(a.members[0].name, b"one.o");
    assert_eq!(a.members[1].name, b"two.o");
    assert_eq!(a.members[2].name, b"three.o");
    assert_eq!(a.members[1].payload, b"222");
}

#[test]
fn archive_truncated_member_fails() {
    let mut data = b"!<arch>\n".to_vec();
    let mut m = member("one.o", b"11");
    m[48..58].copy_from_slice(&padded("50", 10));
    data.extend_from_slice(&m);
    assert_eq!(read_archive(data).err(), Some(ArError::Truncation));
}

#[test]
fn archive_broken_symbol_table_is_treated_absent() {
    // The `/` member's payload claims one symbol but ends early: the
    // archive still decodes, with no symbol table.
    let mut data = b"!<arch>\n".to_vec();
    data.extend_from_slice(&member("/", &[0, 0, 0, 1]));
    data.extend_from_slice(&member("one.o", b"11"));
    let a = read_archive(data).unwrap();
    assert!(a.symbols.is_none());
    assert_eq!(a.members.len(), 1);
    assert_eq!(a.members[0].name, b"one.o");
}

#[test]
fn archive_bad_long_name_reference_fails() {
    let mut data = b"!<arch>\n".to_vec();
    data.extend_from_slice(&member("/", &[0, 0, 0, 0]));
    data.extend_from_slice(&member("//", b"short\n"));
    // Reference far beyond the blob.
    data.extend_from_slice(&member("/400", b"xx"));
    assert_eq!(read_archive(data).err(), Some(ArError::Format));
}

#[test]
fn archive_without_name_table_keeps_reference_names() {
    // With no `//` member, a `/<digits>` name passes through trimmed.
    let mut data = b"!<arch>\n".to_vec();
    data.extend_from_slice(&member("a.o", b"11"));
    data.extend_from_slice(&member("b.o", b"22"));
    data.extend_from_slice(&member("/7", b"33"));
    let a = read_archive(data).unwrap();
    assert_eq!(a.members.len(), 3);
    assert_eq!(a.members[2].name, b"/7");
}
