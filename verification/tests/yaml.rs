use sbd_gen::document::Tree;
use sbd_gen::yaml::parse;

fn text(s: &str) -> Tree {
    Tree::Text(s.to_string())
}

#[test]
fn parse_reads_every_kind_of_value() {
    let tree = parse("a: 1\nb: [x, true, ~, 1.5]\nc: {d: -3}\n7: !t e\n").unwrap();
    assert_eq!(
        tree,
        Tree::Mapping(vec![
            (text("a"), Tree::Number("1".to_string())),
            (
                text("b"),
                Tree::Sequence(vec![text("x"), Tree::Bool(true), Tree::Null, Tree::Number("1.5".to_string())])
            ),
            (text("c"), Tree::Mapping(vec![(text("d"), Tree::Number("-3".to_string()))])),
            (Tree::Number("7".to_string()), Tree::Tagged("!t".to_string(), Box::new(text("e")))),
        ])
    );
}

#[test]
fn parse_keeps_document_order() {
    let tree = parse("zeta: 1\nalpha: 2\nmid: 3\n").unwrap();
    match tree {
        Tree::Mapping(entries) => {
            let keys: Vec<Tree> = entries.into_iter().map(|(k, _)| k).collect();
            assert_eq!(keys, vec![text("zeta"), text("alpha"), text("mid")]);
        }
        other => panic!("no mapping: {:?}", other),
    }
}

#[test]
fn parse_rejects_what_is_no_document() {
    assert!(parse("a: [1, 2").is_err());
    assert!(parse("a: 1\na: 2\n").is_err());
    assert!(parse("---\na: 1\n---\nb: 2\n").is_err());
    assert!(!parse("a: [1, 2").unwrap_err().message.is_empty());
}

#[test]
fn parse_of_scalars() {
    assert_eq!(parse("hello"), Ok(text("hello")));
    assert_eq!(parse("\"12\""), Ok(text("12")));
    assert_eq!(parse("12"), Ok(Tree::Number("12".to_string())));
    assert_eq!(parse("~"), Ok(Tree::Null));
}
