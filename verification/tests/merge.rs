use sbd_gen::document::Tree;
use sbd_gen::merge::{merge, merge_all, MergeError};

fn text(s: &str) -> Tree {
    Tree::Text(s.to_string())
}

fn number(s: &str) -> Tree {
    Tree::Number(s.to_string())
}

fn list(items: Vec<Tree>) -> Tree {
    Tree::Sequence(items)
}

fn map(entries: Vec<(&str, Tree)>) -> Tree {
    Tree::Mapping(entries.into_iter().map(|(k, v)| (text(k), v)).collect())
}

#[test]
fn merge_of_one_document_is_that_document() {
    let d = map(vec![
        ("description", text("boards")),
        ("boards", map(vec![("a", map(vec![("chip", text("nrf52840"))]))])),
    ]);
    assert_eq!(merge_all(&vec![d.clone()]), Ok(d));
}

#[test]
fn merge_of_one_scalar_is_that_scalar() {
    assert_eq!(merge_all(&vec![number("7")]), Ok(number("7")));
}

#[test]
fn merge_of_no_document_is_the_empty_mapping() {
    assert_eq!(merge_all(&vec![]), Ok(Tree::Mapping(vec![])));
}

#[test]
fn later_sequence_replaces_earlier_sequence() {
    let a = map(vec![("x", map(vec![("flags", list(vec![text("f1")]))]))]);
    let b = map(vec![("x", map(vec![("flags", list(vec![text("f2")]))]))]);
    let merged = merge_all(&vec![a, b]).unwrap();
    assert_eq!(merged, map(vec![("x", map(vec![("flags", list(vec![text("f2")]))]))]));
}

#[test]
fn later_scalar_replaces_earlier_scalar() {
    let a = map(vec![("chip", text("old")), ("n", number("1"))]);
    let b = map(vec![("chip", text("new")), ("n", Tree::Bool(true))]);
    assert_eq!(
        merge(&a, &b),
        Ok(map(vec![("chip", text("new")), ("n", Tree::Bool(true))]))
    );
}

#[test]
fn keys_of_one_side_pass_through() {
    let a = map(vec![("fruit", map(vec![("apple", number("1")), ("banana", number("2"))]))]);
    let b = map(vec![("fruit", map(vec![("cherry", number("3"))])), ("nut", text("hazel"))]);
    assert_eq!(
        merge(&a, &b),
        Ok(map(vec![
            (
                "fruit",
                map(vec![("apple", number("1")), ("banana", number("2")), ("cherry", number("3"))])
            ),
            ("nut", text("hazel")),
        ]))
    );
}

#[test]
fn merged_key_keeps_its_place() {
    let a = map(vec![("a", number("1")), ("b", number("2")), ("c", number("3"))]);
    let b = map(vec![("d", number("4")), ("b", number("20"))]);
    assert_eq!(
        merge(&a, &b),
        Ok(map(vec![
            ("a", number("1")),
            ("b", number("20")),
            ("c", number("3")),
            ("d", number("4")),
        ]))
    );
}

#[test]
fn keys_that_are_no_strings_merge_too() {
    let a = Tree::Mapping(vec![(number("1"), text("one")), (Tree::Null, text("none"))]);
    let b = Tree::Mapping(vec![(number("1"), text("uno")), (Tree::Bool(true), text("yes"))]);
    assert_eq!(
        merge(&a, &b),
        Ok(Tree::Mapping(vec![
            (number("1"), text("uno")),
            (Tree::Null, text("none")),
            (Tree::Bool(true), text("yes")),
        ]))
    );
}

#[test]
fn mapping_against_scalar_is_a_conflict_with_its_key_path() {
    let a = map(vec![("x", map(vec![("y", number("1")), ("w", map(vec![]))]))]);
    let b = map(vec![("x", map(vec![("w", map(vec![])), ("y", map(vec![("z", number("2"))]))]))]);
    assert_eq!(merge(&a, &b), Err(vec![text("x"), text("y")]));
    let c = map(vec![("x", text("flat"))]);
    assert_eq!(merge(&a, &c), Err(vec![text("x")]));
}

#[test]
fn mapping_against_scalar_at_the_root_is_a_conflict() {
    let a = map(vec![("x", number("1"))]);
    assert_eq!(merge(&a, &text("flat")), Err(vec![]));
    assert_eq!(merge(&Tree::Null, &a), Err(vec![]));
}

#[test]
fn conflict_names_the_later_document() {
    let a = map(vec![("x", map(vec![("y", number("1"))]))]);
    let b = map(vec![("z", number("2"))]);
    let c = map(vec![("x", map(vec![("y", map(vec![]))]))]);
    let d = map(vec![("x", text("never reached"))]);
    assert_eq!(
        merge_all(&vec![a, b, c, d]),
        Err(MergeError { fragment: 2, path: vec![text("x"), text("y")] })
    );
}

#[test]
fn merge_is_applied_in_the_order_of_the_list() {
    let a = map(vec![("v", number("1"))]);
    let b = map(vec![("v", number("2"))]);
    let c = map(vec![("v", number("3"))]);
    assert_eq!(merge_all(&vec![a.clone(), b.clone(), c.clone()]), Ok(map(vec![("v", number("3"))])));
    assert_eq!(merge_all(&vec![c, b, a]), Ok(map(vec![("v", number("1"))])));
}

#[test]
fn same_tells_trees_apart() {
    let a = map(vec![("x", list(vec![text("a"), Tree::Tagged("t".to_string(), Box::new(Tree::Null))]))]);
    let b = map(vec![("x", list(vec![text("a"), Tree::Tagged("t".to_string(), Box::new(Tree::Bool(false)))]))]);
    assert!(a.same(&a.duplicate()));
    assert!(!a.same(&b));
    assert!(!text("1").same(&number("1")));
    assert_eq!(a.duplicate(), a);
}
