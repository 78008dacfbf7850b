use git_objects::error::ObjectError;
use git_objects::object::{
    bytes_equal, create_blob, decimal_bytes, extract_content, frame_object, object_location,
    parse_frame, prepare_object, read_object, write_commit_object, ObjectKind,
};

const HELLO_HASH: &str = "ce013625030ba8dba906f756967f9e9ca394464a";

#[test]
fn decimal_text() {
    assert_eq!(decimal_bytes(0), b"0".to_vec());
    assert_eq!(decimal_bytes(7), b"7".to_vec());
    assert_eq!(decimal_bytes(10), b"10".to_vec());
    assert_eq!(decimal_bytes(1234), b"1234".to_vec());
}

#[test]
fn kind_tags() {
    assert_eq!(ObjectKind::Blob.tag(), b"blob".to_vec());
    assert_eq!(ObjectKind::Tree.tag(), b"tree".to_vec());
    assert_eq!(ObjectKind::Commit.tag(), b"commit".to_vec());
    assert_eq!(ObjectKind::from_tag(b"commit"), Some(ObjectKind::Commit));
    assert_eq!(ObjectKind::from_tag(b"tag"), None);
}

#[test]
fn compare_bytes() {
    assert!(bytes_equal(b"abc", b"abc"));
    assert!(!bytes_equal(b"abc", b"abd"));
    assert!(!bytes_equal(b"abc", b"ab"));
}

#[test]
fn frame_layout() {
    assert_eq!(frame_object(ObjectKind::Blob, b"hello\n"), b"blob 6\0hello\n".to_vec());
    assert_eq!(frame_object(ObjectKind::Tree, b""), b"tree 0\0".to_vec());
}

#[test]
fn parse_frame_splits_header() {
    assert_eq!(parse_frame(b"blob 6\0hello\n"), Ok((ObjectKind::Blob, b"hello\n".to_vec())));
    assert_eq!(parse_frame(b"commit 0\0"), Ok((ObjectKind::Commit, Vec::new())));
}

#[test]
fn parse_frame_rejects_bad_headers() {
    assert_eq!(parse_frame(b"blob 5\0hello\n"), Err(ObjectError::CorruptHeader));
    assert_eq!(parse_frame(b"blob 06\0hello\n"), Err(ObjectError::CorruptHeader));
    assert_eq!(parse_frame(b"blob6\0hello\n"), Err(ObjectError::CorruptHeader));
    assert_eq!(parse_frame(b"blub 6\0hello\n"), Err(ObjectError::CorruptHeader));
    assert_eq!(parse_frame(b"blob 6 hello\n"), Err(ObjectError::CorruptHeader));
    assert_eq!(parse_frame(b""), Err(ObjectError::CorruptHeader));
}

#[test]
fn hello_blob_address() {
    let stored = create_blob(b"hello\n");
    assert_eq!(stored.hash.to_hex(), HELLO_HASH);
    assert!(stored.hash.to_hex().starts_with("ce013625030ba8dba906f756967f9e9ca394464"));
    let back = read_object(Some(&stored.compressed)).unwrap();
    assert_eq!(back, (ObjectKind::Blob, b"hello\n".to_vec()));
}

#[test]
fn storing_twice_gives_same_address() {
    let a = prepare_object(ObjectKind::Blob, b"some content");
    let b = prepare_object(ObjectKind::Blob, b"some content");
    assert_eq!(a.hash, b.hash);
    assert_eq!(a.compressed, b.compressed);
    assert_eq!(object_location(&a.hash), object_location(&b.hash));
}

#[test]
fn changing_one_byte_changes_address() {
    let a = create_blob(b"hello\n");
    let b = create_blob(b"hellp\n");
    assert_ne!(a.hash, b.hash);
    let c = prepare_object(ObjectKind::Tree, b"hello\n");
    assert_ne!(a.hash, c.hash);
}

#[test]
fn empty_blob_address() {
    let stored = create_blob(b"");
    assert_eq!(stored.hash.to_hex(), "e69de29bb2d1d6434b8b29ae775ad8c2e48c5391");
}

#[test]
fn location_splits_two_and_thirty_eight() {
    let stored = create_blob(b"hello\n");
    let (group, item) = object_location(&stored.hash);
    assert_eq!(group, "ce");
    assert_eq!(item, "013625030ba8dba906f756967f9e9ca394464a");
}

#[test]
fn missing_object_is_not_found() {
    assert_eq!(read_object(None), Err(ObjectError::NotFound));
}

#[test]
fn corrupt_stored_bytes() {
    assert_eq!(read_object(Some(b"garbage")), Err(ObjectError::CorruptData));
    let bad_frame = git_objects::codec::compress(b"blob 9\0hello\n");
    assert_eq!(read_object(Some(&bad_frame)), Err(ObjectError::CorruptHeader));
}

#[test]
fn commit_object_address() {
    let text = "tree 4b825dc642cb6eb9a060e54bf8d69288fbee4904\nauthor A <a@b> 0 +0000\ncommitter A <a@b> 0 +0000\n\nm\n";
    let stored = write_commit_object(text);
    let back = read_object(Some(&stored.compressed)).unwrap();
    assert_eq!(back, (ObjectKind::Commit, text.as_bytes().to_vec()));
    let again = prepare_object(ObjectKind::Commit, text.as_bytes());
    assert_eq!(stored.hash, again.hash);
}

#[test]
fn content_after_first_nul() {
    assert_eq!(extract_content("blob 6\0hello\n"), Some("hello\n"));
    assert_eq!(extract_content("blob 0\0"), Some(""));
    assert_eq!(extract_content("a\0b\0c"), Some("b\0c"));
    assert_eq!(extract_content("no separator"), None);
}
