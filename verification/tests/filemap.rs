use sbd_gen::filemap::{DiskFile, FileMap, WriteError};

fn tree_of(files: &[(&str, &str)]) -> FileMap {
    let mut tree = FileMap::new();
    for (path, content) in files {
        tree.insert(path.to_string(), content.to_string());
    }
    tree
}

fn on_disk(path: &str, content: &str) -> DiskFile {
    DiskFile { path: path.to_string(), len: content.len() as u64, content: Some(content.to_string()) }
}

fn unread(path: &str, len: u64) -> DiskFile {
    DiskFile { path: path.to_string(), len, content: None }
}

fn pair(path: &str, content: &str) -> (String, String) {
    (path.to_string(), content.to_string())
}

#[test]
fn write_all_refuses_existing_target() {
    let tree = tree_of(&[("a.txt", "alpha")]);
    assert_eq!(tree.write_all(true, false), Err(WriteError::AlreadyExists));
    assert_eq!(FileMap::new().write_all(true, false), Err(WriteError::AlreadyExists));
}

#[test]
fn write_all_writes_every_file_once() {
    let tree = tree_of(&[("a.txt", "alpha"), ("src/b.rs", "fn b() {}\n"), ("a.txt", "again")]);
    let expected = vec![pair("a.txt", "again"), pair("src/b.rs", "fn b() {}\n")];
    assert_eq!(tree.write_all(false, false), Ok(expected.clone()));
    assert_eq!(tree.write_all(true, true), Ok(expected.clone()));
    assert_eq!(tree.write_all(false, true), Ok(expected));
}

#[test]
fn compare_after_write_reports_nothing() {
    let tree = tree_of(&[("a.txt", "alpha"), ("src/b.rs", "fn b() {}\n"), ("ü.txt", "größe")]);
    let writes = tree.write_all(false, true).unwrap();
    let files: Vec<DiskFile> = writes.iter().map(|(p, c)| on_disk(p, c)).collect();
    assert_eq!(tree.compare(&files), (vec![], vec![], vec![]));
    let lens: Vec<DiskFile> = writes.iter().map(|(p, c)| unread(p, c.len() as u64)).collect();
    assert_eq!(tree.compare(&lens), (vec![], vec![], vec![]));
}

#[test]
fn same_length_counts_as_same_content() {
    let tree = tree_of(&[("a.txt", "alpha")]);
    assert_eq!(tree.compare(&vec![on_disk("a.txt", "omega")]), (vec![], vec![], vec![]));
    assert!(!tree.needs_content(&"a.txt".to_string(), 5));
}

#[test]
fn other_length_is_differing() {
    let tree = tree_of(&[("a.txt", "alpha"), ("b.txt", "beta")]);
    let files = vec![on_disk("b.txt", "beta"), on_disk("a.txt", "alphabet")];
    assert_eq!(tree.compare(&files), (vec!["a.txt".to_string()], vec![], vec![]));
    assert_eq!(tree.compare(&vec![unread("a.txt", 0), unread("b.txt", 4)]), (vec!["a.txt".to_string()], vec![], vec![]));
    assert!(tree.needs_content(&"a.txt".to_string(), 8));
    assert!(!tree.needs_content(&"c.txt".to_string(), 8));
}

#[test]
fn length_is_counted_in_bytes() {
    let tree = tree_of(&[("a.txt", "größe")]);
    assert!(!tree.needs_content(&"a.txt".to_string(), 7));
    assert!(tree.needs_content(&"a.txt".to_string(), 5));
    assert_eq!(tree.compare(&vec![unread("a.txt", 7)]), (vec![], vec![], vec![]));
    assert_eq!(tree.compare(&vec![unread("a.txt", 5)]), (vec!["a.txt".to_string()], vec![], vec![]));
}

#[test]
fn text_that_was_read_and_is_equal_matches() {
    let tree = tree_of(&[("a.txt", "alpha")]);
    let stale = DiskFile { path: "a.txt".to_string(), len: 3, content: Some("alpha".to_string()) };
    assert_eq!(tree.compare(&vec![stale]), (vec![], vec![], vec![]));
}

#[test]
fn extra_and_missing_are_told_apart() {
    let tree = tree_of(&[("a.txt", "alpha"), ("b.txt", "beta"), ("c.txt", "gamma")]);
    let files = vec![on_disk("z.txt", "alpha"), on_disk("b.txt", "beta"), on_disk("y/a.txt", "alpha")];
    let (differing, extra, missing) = tree.compare(&files);
    assert!(differing.is_empty());
    assert_eq!(extra, vec!["z.txt", "y/a.txt"]);
    assert_eq!(missing, vec!["a.txt", "c.txt"]);
}

#[test]
fn empty_directory_misses_everything() {
    let tree = tree_of(&[("a.txt", "alpha"), ("b.txt", "beta")]);
    assert_eq!(tree.compare(&vec![]), (vec![], vec![], vec!["a.txt".to_string(), "b.txt".to_string()]));
    assert_eq!(FileMap::new().compare(&vec![on_disk("a", "")]), (vec![], vec!["a".to_string()], vec![]));
}

#[test]
fn insert_replaces_in_place() {
    let mut tree = tree_of(&[("a.txt", "alpha"), ("b.txt", "beta")]);
    assert_eq!(tree.get(&"a.txt".to_string()), Some(&"alpha".to_string()));
    tree.insert("a.txt".to_string(), "again".to_string());
    assert_eq!(tree.get(&"a.txt".to_string()), Some(&"again".to_string()));
    assert_eq!(tree.get(&"c.txt".to_string()), None);
    assert_eq!(tree.write_all(false, false), Ok(vec![pair("a.txt", "again"), pair("b.txt", "beta")]));
}

#[test]
fn trees_are_equal_whatever_the_order_of_insertion() {
    let a = tree_of(&[("a.txt", "alpha"), ("b.txt", "beta")]);
    let b = tree_of(&[("b.txt", "beta"), ("a.txt", "old"), ("a.txt", "alpha")]);
    assert!(a == b);
    assert!(a.clone() == a);
    assert!(a != tree_of(&[("a.txt", "alpha")]));
    assert!(tree_of(&[("a.txt", "alpha")]) != a);
    assert!(a != tree_of(&[("a.txt", "alpha"), ("b.txt", "gamma")]));
    assert!(FileMap::default() == FileMap::new());
}
