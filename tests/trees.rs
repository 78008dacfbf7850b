use git_objects::error::ObjectError;
use git_objects::object::{create_blob, read_object, ObjectKind};
use git_objects::tree::{
    bytes_less, decode_tree, encode_tree, extract_names_from_tree_entries, sort_entries,
    write_tree, GitTreeEntry,
};

fn address(fill: u8) -> git_objects::hash::Hash {
    git_objects::hash::Hash::from_bytes(&[fill; 20]).unwrap()
}

fn entry(mode: &str, name: &str, fill: u8) -> GitTreeEntry {
    GitTreeEntry { mode: mode.to_string(), name: name.to_string(), hash: address(fill) }
}

fn record(mode: &str, name: &str, fill: u8) -> Vec<u8> {
    let mut v = Vec::new();
    v.extend_from_slice(mode.as_bytes());
    v.push(b' ');
    v.extend_from_slice(name.as_bytes());
    v.push(0);
    v.extend_from_slice(&[fill; 20]);
    v
}

#[test]
fn byte_order() {
    assert!(bytes_less(b"a", b"b"));
    assert!(bytes_less(b"ab", b"abc"));
    assert!(bytes_less(b"", b"a"));
    assert!(!bytes_less(b"b", b"a"));
    assert!(!bytes_less(b"abc", b"abc"));
    assert!(bytes_less(b"Z", b"a"));
}

#[test]
fn entry_order() {
    assert!(entry("100644", "a", 1).le(&entry("100644", "b", 0)));
    assert!(!entry("100644", "b", 0).le(&entry("100644", "a", 1)));
    assert!(entry("100644", "a", 1).le(&entry("100644", "a", 1)));
}

#[test]
fn sort_by_name_bytes() {
    let sorted = sort_entries(vec![
        entry("100644", "zeta", 1),
        entry("40000", "alpha", 2),
        entry("100644", "Beta", 3),
        entry("100644", "alpha.txt", 4),
    ]);
    let names: Vec<&str> = sorted.iter().map(|e| e.name.as_str()).collect();
    assert_eq!(names, vec!["Beta", "alpha", "alpha.txt", "zeta"]);
}

#[test]
fn sort_empty() {
    assert!(sort_entries(Vec::new()).is_empty());
}

#[test]
fn encode_sorts_and_frames_records() {
    let bytes = encode_tree(vec![entry("40000", "src", 7), entry("100644", "README", 9)]);
    let mut expected = record("100644", "README", 9);
    expected.extend(record("40000", "src", 7));
    assert_eq!(bytes, expected);
}

#[test]
fn encode_ignores_input_order() {
    let a = encode_tree(vec![entry("100644", "one", 1), entry("100644", "two", 2)]);
    let b = encode_tree(vec![entry("100644", "two", 2), entry("100644", "one", 1)]);
    assert_eq!(a, b);
}

#[test]
fn encode_empty_tree() {
    assert!(encode_tree(Vec::new()).is_empty());
    let stored = write_tree(Vec::new());
    assert_eq!(stored.hash.to_hex(), "4b825dc642cb6eb9a060e54bf8d69288fbee4904");
}

#[test]
fn decode_after_encode_gives_sorted_entries() {
    let input = vec![entry("100644", "b.txt", 1), entry("40000", "a dir", 2), entry("100644", "c", 3)];
    let decoded = decode_tree(&encode_tree(input)).unwrap();
    assert_eq!(
        decoded,
        vec![entry("40000", "a dir", 2), entry("100644", "b.txt", 1), entry("100644", "c", 3)]
    );
}

#[test]
fn decode_splits_at_first_space() {
    let decoded = decode_tree(&record("100644", "name with spaces", 5)).unwrap();
    assert_eq!(decoded, vec![entry("100644", "name with spaces", 5)]);
}

#[test]
fn decode_empty_payload() {
    assert_eq!(decode_tree(&[]), Ok(Vec::new()));
}

#[test]
fn decode_truncated_address_fails() {
    let mut bytes = record("100644", "a", 1);
    bytes.extend(record("100644", "b", 2));
    let cut = &bytes[..bytes.len() - 5];
    assert_eq!(decode_tree(cut), Err(ObjectError::CorruptTree));
    assert_eq!(decode_tree(&bytes[..10]), Err(ObjectError::CorruptTree));
}

#[test]
fn decode_rejects_missing_nul_and_space() {
    assert_eq!(decode_tree(b"100644 file"), Err(ObjectError::CorruptTree));
    let mut no_space = b"100644file\0".to_vec();
    no_space.extend_from_slice(&[1u8; 20]);
    assert_eq!(decode_tree(&no_space), Err(ObjectError::CorruptTree));
}

#[test]
fn decode_rejects_invalid_utf8_name() {
    let mut bytes = b"100644 \xff\xfe\0".to_vec();
    bytes.extend_from_slice(&[1u8; 20]);
    assert_eq!(decode_tree(&bytes), Err(ObjectError::CorruptTree));
}

#[test]
fn names_from_tree_object() {
    let mut object = b"tree 50\0".to_vec();
    object.extend(record("100644", "a.txt", 1));
    object.extend(record("40000", "lib", 2));
    assert_eq!(
        extract_names_from_tree_entries(&object),
        Ok(vec!["a.txt".to_string(), "lib".to_string()])
    );
    assert_eq!(extract_names_from_tree_entries(b"tree 0"), Err(ObjectError::CorruptHeader));
    assert_eq!(extract_names_from_tree_entries(b"tree 3\0abc"), Err(ObjectError::CorruptTree));
}

#[test]
fn snapshot_of_one_file() {
    let blob = create_blob(b"hello\n");
    let tree = write_tree(vec![GitTreeEntry {
        mode: "100644".to_string(),
        name: "test.txt".to_string(),
        hash: blob.hash,
    }]);
    let (kind, payload) = read_object(Some(&tree.compressed)).unwrap();
    assert_eq!(kind, ObjectKind::Tree);
    let entries = decode_tree(&payload).unwrap();
    assert_eq!(entries.len(), 1);
    assert_eq!(entries[0].name, "test.txt");
    assert_eq!(entries[0].mode, "100644");
    assert_eq!(entries[0].hash.to_hex(), "ce013625030ba8dba906f756967f9e9ca394464a");
}
