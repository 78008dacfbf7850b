use git_objects::commit::{create_commit_object, format_commit, signature_line};
use git_objects::object::{create_blob, read_object, write_commit_object, ObjectKind};
use git_objects::tree::{write_tree, GitTreeEntry};

#[test]
fn commit_text_without_parent() {
    let text = format_commit("abc", None, "A <a@x> 1 +0000", "C <c@x> 2 +0000", "first");
    assert_eq!(text, "tree abc\nauthor A <a@x> 1 +0000\ncommitter C <c@x> 2 +0000\n\nfirst\n");
}

#[test]
fn commit_text_with_parent() {
    let parent = "def".to_string();
    let text = format_commit("abc", Some(&parent), "A", "C", "msg");
    assert_eq!(text, "tree abc\nparent def\nauthor A\ncommitter C\n\nmsg\n");
}

#[test]
fn signature_joins_identity_and_time() {
    assert_eq!(signature_line("A <a@x>", "Mon Jan  1 00:00:00 2024 +0000"), "A <a@x> Mon Jan  1 00:00:00 2024 +0000");
}

#[test]
fn commit_stamps_author_and_committer() {
    let parent = "p".to_string();
    let text = create_commit_object("t", Some(&parent), "Ann <ann@x>", "Cid <cid@x>", "hello");
    let lines: Vec<&str> = text.split('\n').collect();
    assert_eq!(lines[0], "tree t");
    assert_eq!(lines[1], "parent p");
    assert!(lines[2].starts_with("author Ann <ann@x> "));
    assert!(lines[2].len() > "author Ann <ann@x> ".len());
    assert!(lines[3].starts_with("committer Cid <cid@x> "));
    assert_eq!(lines[4], "");
    assert_eq!(lines[5], "hello");
    assert!(text.ends_with("hello\n"));
}

#[test]
fn root_commit_round_trip() {
    let blob = create_blob(b"hello\n");
    let tree = write_tree(vec![GitTreeEntry {
        mode: "100644".to_string(),
        name: "test.txt".to_string(),
        hash: blob.hash,
    }]);
    let root_hex = tree.hash.to_hex();
    let text = create_commit_object(&root_hex, None, "Ann <ann@x>", "Ann <ann@x>", "initial");
    let stored = write_commit_object(&text);
    let (kind, payload) = read_object(Some(&stored.compressed)).unwrap();
    assert_eq!(kind, ObjectKind::Commit);
    let back = String::from_utf8(payload).unwrap();
    assert!(back.starts_with(&format!("tree {}\n", root_hex)));
    assert!(!back.contains("parent "));
}
