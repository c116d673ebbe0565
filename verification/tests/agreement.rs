use sbd_gen::compile::read_fragment;
use sbd_gen::document::Tree;
use sbd_gen::merge::merge_all;
use sbd_gen::yaml::parse;
use yaml_hash::YamlHash;

fn merged_here(texts: &[&str]) -> Tree {
    let docs: Vec<Tree> = texts.iter().map(|t| read_fragment(t).unwrap()).collect();
    let mut all = vec![Tree::Mapping(vec![])];
    all.extend(docs);
    merge_all(&all).unwrap()
}

fn merged_by_yaml_hash(texts: &[&str]) -> Tree {
    let mut hash = YamlHash::new();
    for text in texts {
        hash = hash.merge_str(text).unwrap();
    }
    parse(&hash.to_string()).unwrap()
}

#[test]
fn merge_agrees_with_yaml_hash_where_kinds_agree() {
    let cases: Vec<Vec<&str>> = vec![
        vec!["fruit:\n  apple: 1\n  banana: 2\n", "fruit:\n  cherry:\n    sweet: 1\n    tart: 2\n"],
        vec!["a: {b: {c: 1, d: [1, 2]}}\n", "a: {b: {d: [3], e: x}}\nz: true\n", "a: {b: {c: 2}}\ny: ~\n"],
        vec!["boards:\n  dk:\n    chip: one\n    flags: [f1]\n", "", "boards:\n  pico:\n    chip: two\n  dk:\n    flags: [f2]\n"],
        vec!["x: 1\n", "x: two\n", "x: [3]\n", "x: 4.5\n"],
        vec!["1: one\ntrue: yes\n", "1: uno\n2: dos\n"],
    ];
    for texts in cases {
        assert_eq!(merged_here(&texts), merged_by_yaml_hash(&texts), "{:?}", texts);
    }
}

#[test]
fn merge_refuses_where_yaml_hash_replaces() {
    let texts = ["a: {b: 1}\n", "a: flat\n"];
    let docs: Vec<Tree> = texts.iter().map(|t| read_fragment(t).unwrap()).collect();
    assert!(merge_all(&docs).is_err());
    assert_eq!(merged_by_yaml_hash(&texts), parse("a: flat\n").unwrap());
}
