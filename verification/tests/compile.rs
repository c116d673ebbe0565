use sbd_gen::compile::{compile, fragment_paths, read_fragment, CompileError};
use sbd_gen::document::Tree;
use sbd_gen::sbd::{Led, PinLevel, Quirk, SetPinOp};
use sbd_gen::schema::{DecodeError, PathStep};

fn texts(items: &[&str]) -> Vec<String> {
    items.iter().map(|s| s.to_string()).collect()
}

fn key(s: &str) -> PathStep {
    PathStep::Key(s.to_string())
}

#[test]
fn fragments_are_merged_and_decoded() {
    let a = "description: boards\nboards:\n  dk:\n    chip: nrf52840\n    flags: [f1]\n    leds:\n      led0:\n        pin: P0_13\n";
    let b = "boards:\n  dk:\n    flags: [f2]\n    leds:\n      led1:\n        pin: P0_14\n        color: red\n  pico:\n    chip: rp2040\n";
    let m = compile(&texts(&[a, b])).unwrap();
    assert_eq!(m.description, Some("boards".to_string()));
    let boards = m.boards.unwrap();
    assert_eq!(boards.len(), 2);
    assert_eq!(boards[0].name, "dk");
    assert_eq!(boards[0].chip, "nrf52840");
    assert_eq!(boards[0].flags, vec!["f2"]);
    assert_eq!(
        boards[0].leds,
        Some(vec![
            Led { name: "led0".to_string(), pin: "P0_13".to_string(), color: None, inverted: None },
            Led { name: "led1".to_string(), pin: "P0_14".to_string(), color: Some("red".to_string()), inverted: None },
        ])
    );
    assert_eq!(boards[1].name, "pico");
    assert_eq!(boards[1].chip, "rp2040");
}

#[test]
fn later_fragment_wins() {
    let a = "boards: {b: {chip: one}}\n";
    let b = "boards: {b: {chip: two}}\n";
    assert_eq!(compile(&texts(&[a, b])).unwrap().boards.unwrap()[0].chip, "two");
    assert_eq!(compile(&texts(&[b, a])).unwrap().boards.unwrap()[0].chip, "one");
}

#[test]
fn two_boards_keep_the_order_of_the_text() {
    let doc = "boards:\n  zeta: {chip: a}\n  alpha: {chip: b}\n";
    for _ in 0..3 {
        let boards = compile(&texts(&[doc])).unwrap().boards.unwrap();
        let names: Vec<&str> = boards.iter().map(|b| b.name.as_str()).collect();
        assert_eq!(names, vec!["zeta", "alpha"]);
    }
}

#[test]
fn unknown_key_of_a_board_gives_no_manifest() {
    let doc = "boards:\n  dk:\n    chip: nrf52840\n    soc: nrf52840\n";
    assert_eq!(
        compile(&texts(&[doc])),
        Err(CompileError::Decode(DecodeError::UnknownField {
            path: vec![key("boards"), key("dk")],
            key: "soc".to_string()
        }))
    );
}

#[test]
fn quirks_are_read_from_text() {
    let doc = "boards:\n  dk:\n    chip: c\n    quirks:\n      - type: set_pin\n        pin: P1\n        level: low\n      - {type: set_pin, pin: P2, description: wake}\n";
    let boards = compile(&texts(&[doc])).unwrap().boards.unwrap();
    assert_eq!(
        boards[0].quirks,
        vec![
            Quirk::SetPin(SetPinOp { description: None, pin: "P1".to_string(), level: PinLevel::Low }),
            Quirk::SetPin(SetPinOp { description: Some("wake".to_string()), pin: "P2".to_string(), level: PinLevel::High }),
        ]
    );
}

#[test]
fn text_without_characters_is_the_empty_mapping() {
    assert_eq!(read_fragment(""), Ok(Tree::Mapping(vec![])));
    let m = compile(&texts(&["", "description: d\n", ""])).unwrap();
    assert_eq!(m.description, Some("d".to_string()));
    assert_eq!(compile(&texts(&[])).unwrap().boards, None);
}

#[test]
fn number_is_no_string() {
    let doc = "boards: {b: {chip: 52840}}\n";
    assert_eq!(
        compile(&texts(&[doc])),
        Err(CompileError::Decode(DecodeError::TypeMismatch { path: vec![key("boards"), key("b"), key("chip")] }))
    );
    assert!(compile(&texts(&["boards: {b: {chip: \"52840\"}}\n"])).is_ok());
}

#[test]
fn text_that_is_no_document_is_reported_with_its_position() {
    match compile(&texts(&["description: d\n", "boards: [", "x: {"])) {
        Err(CompileError::Parse { fragment, message }) => {
            assert_eq!(fragment, 1);
            assert!(!message.is_empty());
        }
        other => panic!("{:?}", other),
    }
}

#[test]
fn reading_comes_before_merging_and_merging_before_decoding() {
    let conflict = compile(&texts(&["boards: {b: {chip: c}}\n", "boards: flat\nbogus: 1\n"]));
    assert_eq!(
        conflict,
        Err(CompileError::Merge { fragment: 1, path: vec![Tree::Text("boards".to_string())] })
    );
    match compile(&texts(&["boards: {b: {chip: c}}\n", "boards: flat\n", "x: ["])) {
        Err(CompileError::Parse { fragment, .. }) => assert_eq!(fragment, 2),
        other => panic!("{:?}", other),
    }
}

#[test]
fn description_files_are_chosen_and_ordered() {
    let paths = texts(&["b/z.yaml", "b/a.yaml", "readme.md", "a.yaml.bak", "B.yaml", "b/a.yaml", ".yaml", "yaml", "a/b.yml"]);
    assert_eq!(fragment_paths(&paths), texts(&[".yaml", "B.yaml", "b/a.yaml", "b/z.yaml"]));
    let mut expected: Vec<String> = paths.iter().filter(|p| p.ends_with(".yaml")).cloned().collect();
    expected.sort();
    expected.dedup();
    assert_eq!(fragment_paths(&paths), expected);
    let mut turned = paths.clone();
    turned.reverse();
    assert_eq!(fragment_paths(&turned), expected);
    assert_eq!(fragment_paths(&vec![]), Vec::<String>::new());
}
