use tree_manipulation::bytes::{append_bytes, append_hex, append_text, copy_bytes, same_bytes};
use tree_manipulation::object::{EntryKind, ObjectId};

#[test]
fn copies_hold_the_same_bytes() {
    let bytes = b"some \x00 bytes\xff".to_vec();
    assert_eq!(copy_bytes(&bytes), bytes);
    assert_eq!(copy_bytes(&vec![]), Vec::<u8>::new());
}

#[test]
fn same_bytes_compares_length_and_content() {
    assert!(same_bytes(&b"abc".to_vec(), &b"abc".to_vec()));
    assert!(same_bytes(&vec![], &vec![]));
    assert!(!same_bytes(&b"abc".to_vec(), &b"abd".to_vec()));
    assert!(!same_bytes(&b"abc".to_vec(), &b"ab".to_vec()));
    assert!(!same_bytes(&b"".to_vec(), &b"a".to_vec()));
}

#[test]
fn appending_adds_at_the_end() {
    let mut out = b"start:".to_vec();
    append_bytes(&mut out, b"\x01\x02");
    append_text(&mut out, " text ");
    append_hex(&mut out, &[0x00, 0x9f, 0xa0, 0xff]);
    assert_eq!(out, b"start:\x01\x02 text 009fa0ff".to_vec());
}

#[test]
fn hex_of_nothing_is_empty() {
    let mut out = Vec::new();
    append_hex(&mut out, &[]);
    assert_eq!(out, Vec::<u8>::new());
}

#[test]
fn object_ids_are_equal_if_all_bytes_are() {
    let a = ObjectId { bytes: [7; 20] };
    let mut b = a;
    assert_eq!(a, b);
    b.bytes[19] = 8;
    assert_ne!(a, b);
    b.bytes[19] = 7;
    b.bytes[0] = 0;
    assert_ne!(a, b);
}

#[test]
fn regular_files_are_blobs() {
    assert!(EntryKind::Blob.is_blob());
    assert!(EntryKind::BlobExecutable.is_blob());
    assert!(!EntryKind::Link.is_blob());
    assert!(!EntryKind::Commit.is_blob());
    assert!(!EntryKind::Tree.is_blob());
}
