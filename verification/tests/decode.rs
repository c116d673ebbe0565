use sbd_gen::decode::{decode, get_field};
use sbd_gen::document::Tree;
use sbd_gen::sbd::{Button, Debugger, Led, PinLevel, Quirk, SetPinOp, Uart};
use sbd_gen::schema::{copy_path, field_of, holds_key, validate, DecodeError, Field, PathStep, Presence, Shape};

fn text(s: &str) -> Tree {
    Tree::Text(s.to_string())
}

fn list(items: Vec<Tree>) -> Tree {
    Tree::Sequence(items)
}

fn map(entries: Vec<(&str, Tree)>) -> Tree {
    Tree::Mapping(entries.into_iter().map(|(k, v)| (text(k), v)).collect())
}

fn key(s: &str) -> PathStep {
    PathStep::Key(s.to_string())
}

fn one_board(fields: Vec<(&str, Tree)>) -> Tree {
    map(vec![("boards", map(vec![("b", map(fields))]))])
}

#[test]
fn empty_mapping_is_an_empty_manifest() {
    let m = decode(&map(vec![])).unwrap();
    assert_eq!(m.description, None);
    assert_eq!(m.includes, None);
    assert_eq!(m.boards, None);
    assert_eq!(m.ariel, None);
}

#[test]
fn boards_come_in_document_order_with_their_keys_as_names() {
    let doc = map(vec![(
        "boards",
        map(vec![
            ("zeta", map(vec![("chip", text("rp2040"))])),
            ("alpha", map(vec![("chip", text("nrf52840"))])),
        ]),
    )]);
    let m = decode(&doc).unwrap();
    let boards = m.boards.unwrap();
    assert_eq!(boards.len(), 2);
    assert_eq!(boards[0].name, "zeta");
    assert_eq!(boards[0].chip, "rp2040");
    assert_eq!(boards[1].name, "alpha");
    assert_eq!(boards[1].chip, "nrf52840");
    assert_eq!(decode(&doc).unwrap().boards.unwrap(), boards);
}

#[test]
fn unknown_key_in_a_board_is_rejected() {
    let doc = one_board(vec![("chip", text("rp2040")), ("colour", text("red"))]);
    assert_eq!(
        decode(&doc),
        Err(DecodeError::UnknownField { path: vec![key("boards"), key("b")], key: "colour".to_string() })
    );
}

#[test]
fn unknown_key_is_rejected_in_every_object() {
    let root = map(vec![("board", map(vec![]))]);
    assert_eq!(decode(&root), Err(DecodeError::UnknownField { path: vec![], key: "board".to_string() }));
    let led = one_board(vec![
        ("chip", text("c")),
        ("leds", map(vec![("led0", map(vec![("pin", text("P1")), ("colour", text("red"))]))])),
    ]);
    assert_eq!(
        decode(&led),
        Err(DecodeError::UnknownField {
            path: vec![key("boards"), key("b"), key("leds"), key("led0")],
            key: "colour".to_string()
        })
    );
    let quirk = one_board(vec![
        ("chip", text("c")),
        ("quirks", list(vec![map(vec![("type", text("set_pin")), ("pin", text("P1")), ("when", text("boot"))])])),
    ]);
    assert_eq!(
        decode(&quirk),
        Err(DecodeError::UnknownField {
            path: vec![key("boards"), key("b"), key("quirks"), PathStep::Index(0)],
            key: "when".to_string()
        })
    );
}

#[test]
fn missing_chip_is_rejected() {
    let doc = one_board(vec![("description", text("no chip"))]);
    assert_eq!(
        decode(&doc),
        Err(DecodeError::MissingRequiredField { path: vec![key("boards"), key("b")], field: "chip".to_string() })
    );
}

#[test]
fn missing_pins_are_reported_in_schema_order() {
    let doc = one_board(vec![("chip", text("c")), ("uarts", map(vec![("u0", map(vec![]))]))]);
    assert_eq!(
        decode(&doc),
        Err(DecodeError::MissingRequiredField {
            path: vec![key("boards"), key("b"), key("uarts"), key("u0")],
            field: "rx_pin".to_string()
        })
    );
}

#[test]
fn wrong_kind_of_value_is_rejected() {
    let doc = one_board(vec![("chip", Tree::Number("52840".to_string()))]);
    assert_eq!(
        decode(&doc),
        Err(DecodeError::TypeMismatch { path: vec![key("boards"), key("b"), key("chip")] })
    );
    let flags = one_board(vec![("chip", text("c")), ("flags", list(vec![text("a"), Tree::Bool(true)]))]);
    assert_eq!(
        decode(&flags),
        Err(DecodeError::TypeMismatch { path: vec![key("boards"), key("b"), key("flags"), PathStep::Index(1)] })
    );
    assert_eq!(decode(&text("flat")), Err(DecodeError::TypeMismatch { path: vec![] }));
    let level = one_board(vec![
        ("chip", text("c")),
        ("quirks", list(vec![map(vec![("type", text("set_pin")), ("pin", text("P1")), ("level", text("medium"))])])),
    ]);
    assert_eq!(
        decode(&level),
        Err(DecodeError::TypeMismatch {
            path: vec![key("boards"), key("b"), key("quirks"), PathStep::Index(0), key("level")]
        })
    );
}

#[test]
fn key_that_is_no_string_is_rejected() {
    let doc = Tree::Mapping(vec![(
        text("boards"),
        Tree::Mapping(vec![(Tree::Number("1".to_string()), map(vec![("chip", text("c"))]))]),
    )]);
    assert_eq!(decode(&doc), Err(DecodeError::TypeMismatch { path: vec![key("boards")] }));
}

#[test]
fn duplicate_names_are_rejected() {
    let doc = map(vec![(
        "boards",
        map(vec![("a", map(vec![("chip", text("x"))])), ("a", map(vec![("chip", text("y"))]))]),
    )]);
    assert_eq!(
        decode(&doc),
        Err(DecodeError::DuplicateKey { path: vec![key("boards")], key: "a".to_string() })
    );
    let field = one_board(vec![("chip", text("x")), ("chip", text("x"))]);
    assert_eq!(
        decode(&field),
        Err(DecodeError::DuplicateKey { path: vec![key("boards"), key("b")], key: "chip".to_string() })
    );
}

#[test]
fn first_fault_in_document_order_decides() {
    let doc = map(vec![
        ("description", Tree::Bool(true)),
        ("boards", map(vec![("b", map(vec![("bogus", text("x"))]))])),
    ]);
    assert_eq!(decode(&doc), Err(DecodeError::TypeMismatch { path: vec![key("description")] }));
    let doc = one_board(vec![("bogus", text("x")), ("description", Tree::Bool(true))]);
    assert_eq!(
        decode(&doc),
        Err(DecodeError::UnknownField { path: vec![key("boards"), key("b")], key: "bogus".to_string() })
    );
}

#[test]
fn defaults_apply() {
    let doc = one_board(vec![
        ("chip", text("c")),
        ("quirks", list(vec![map(vec![("type", text("set_pin")), ("pin", text("P0_01"))])])),
    ]);
    let m = decode(&doc).unwrap();
    let b = &m.boards.as_ref().unwrap()[0];
    assert!(b.flags.is_empty());
    assert_eq!(b.description, None);
    assert_eq!(b.includes, None);
    assert_eq!(b.leds, None);
    assert_eq!(b.buttons, None);
    assert_eq!(b.uarts, None);
    assert_eq!(b.debugger, None);
    assert_eq!(b.ariel, None);
    assert_eq!(
        b.quirks,
        vec![Quirk::SetPin(SetPinOp { description: None, pin: "P0_01".to_string(), level: PinLevel::High })]
    );
    assert_eq!(PinLevel::default(), PinLevel::High);
    let bare = decode(&one_board(vec![("chip", text("c"))])).unwrap();
    assert!(bare.boards.unwrap()[0].quirks.is_empty());
}

#[test]
fn null_stands_for_an_absent_optional_field() {
    let doc = map(vec![
        ("description", Tree::Null),
        ("ariel", Tree::Null),
        ("boards", map(vec![("b", map(vec![("chip", text("c")), ("leds", Tree::Null), ("debugger", Tree::Null)]))])),
    ]);
    let m = decode(&doc).unwrap();
    assert_eq!(m.description, None);
    assert_eq!(m.ariel, None);
    let b = &m.boards.as_ref().unwrap()[0];
    assert_eq!(b.leds, None);
    assert_eq!(b.debugger, None);
    let flags = one_board(vec![("chip", text("c")), ("flags", Tree::Null)]);
    assert_eq!(
        decode(&flags),
        Err(DecodeError::TypeMismatch { path: vec![key("boards"), key("b"), key("flags")] })
    );
    let chip = one_board(vec![("chip", Tree::Null)]);
    assert_eq!(
        decode(&chip),
        Err(DecodeError::TypeMismatch { path: vec![key("boards"), key("b"), key("chip")] })
    );
}

#[test]
fn flags_are_a_set_in_ascending_order() {
    let doc = one_board(vec![
        ("chip", text("c")),
        ("flags", list(vec![text("usb"), text("ble"), text("usb"), text("b"), text("wifi"), text("ble")])),
    ]);
    let m = decode(&doc).unwrap();
    assert_eq!(m.boards.unwrap()[0].flags, vec!["b", "ble", "usb", "wifi"]);
}

#[test]
fn full_board_is_decoded() {
    let uart = map(vec![
        ("rx_pin", text("P0_08")),
        ("tx_pin", text("P0_06")),
        ("cts_pin", text("P0_07")),
        ("possible_peripherals", list(vec![text("UARTE0"), text("UARTE1")])),
        ("host_facing", Tree::Bool(true)),
    ]);
    let doc = map(vec![
        ("description", text("all boards")),
        ("include", list(vec![text("common.yaml")])),
        ("ariel", map(vec![("anything", list(vec![Tree::Number("1".to_string())]))])),
        (
            "boards",
            map(vec![(
                "dk",
                map(vec![
                    ("chip", text("nrf52840")),
                    ("description", text("dev kit")),
                    ("include", list(vec![text("a"), text("b")])),
                    ("flags", list(vec![text("has_swi")])),
                    (
                        "quirks",
                        list(vec![map(vec![
                            ("type", text("set_pin")),
                            ("pin", text("P0_31")),
                            ("level", text("low")),
                            ("description", text("enable the antenna")),
                        ])]),
                    ),
                    ("debugger", map(vec![("type", text("jlink")), ("uart", uart.clone())])),
                    (
                        "leds",
                        map(vec![
                            ("led1", map(vec![("pin", text("P0_13")), ("color", text("green")), ("inverted", Tree::Bool(true))])),
                            ("led0", map(vec![("pin", text("P0_14"))])),
                        ]),
                    ),
                    ("buttons", map(vec![("sw0", map(vec![("pin", text("P0_11")), ("active_low", Tree::Bool(true))]))])),
                    ("uarts", map(vec![("console", uart)])),
                    ("ariel", text("opaque")),
                ]),
            )]),
        ),
    ]);
    let m = decode(&doc).unwrap();
    assert_eq!(m.description, Some("all boards".to_string()));
    assert_eq!(m.includes, Some(vec!["common.yaml".to_string()]));
    assert_eq!(m.ariel, Some(map(vec![("anything", list(vec![Tree::Number("1".to_string())]))])));
    let boards = m.boards.unwrap();
    let b = &boards[0];
    assert_eq!(b.name, "dk");
    assert_eq!(b.chip, "nrf52840");
    assert_eq!(b.description, Some("dev kit".to_string()));
    assert_eq!(b.includes, Some(vec!["a".to_string(), "b".to_string()]));
    assert_eq!(b.flags, vec!["has_swi"]);
    assert_eq!(
        b.quirks,
        vec![Quirk::SetPin(SetPinOp {
            description: Some("enable the antenna".to_string()),
            pin: "P0_31".to_string(),
            level: PinLevel::Low
        })]
    );
    let port = |name: Option<&str>| Uart {
        name: name.map(|n| n.to_string()),
        rx_pin: "P0_08".to_string(),
        tx_pin: "P0_06".to_string(),
        cts_pin: Some("P0_07".to_string()),
        rts_pin: None,
        possible_peripherals: Some(vec!["UARTE0".to_string(), "UARTE1".to_string()]),
        host_facing: Some(true),
    };
    assert_eq!(b.debugger, Some(Debugger { type_: "jlink".to_string(), uart: Some(port(None)) }));
    assert_eq!(
        b.leds,
        Some(vec![
            Led { name: "led1".to_string(), pin: "P0_13".to_string(), color: Some("green".to_string()), inverted: Some(true) },
            Led { name: "led0".to_string(), pin: "P0_14".to_string(), color: None, inverted: None },
        ])
    );
    assert_eq!(b.buttons, Some(vec![Button { name: "sw0".to_string(), pin: "P0_11".to_string(), active_low: Some(true) }]));
    assert_eq!(b.uarts, Some(vec![port(Some("console"))]));
    assert_eq!(b.ariel, Some(text("opaque")));
    assert!(b.has_leds());
    assert!(b.has_buttons());
}

#[test]
fn has_leds_and_has_buttons_need_at_least_one() {
    let none = decode(&one_board(vec![("chip", text("c"))])).unwrap().boards.unwrap();
    assert!(!none[0].has_leds());
    assert!(!none[0].has_buttons());
    let empty = decode(&one_board(vec![("chip", text("c")), ("leds", map(vec![])), ("buttons", map(vec![]))]))
        .unwrap()
        .boards
        .unwrap();
    assert_eq!(empty[0].leds, Some(vec![]));
    assert!(!empty[0].has_leds());
    assert!(!empty[0].has_buttons());
}

#[test]
fn unknown_kind_of_quirk_is_rejected() {
    let doc = one_board(vec![
        ("chip", text("c")),
        ("quirks", list(vec![map(vec![("type", text("reset")), ("pin", text("P1"))])])),
    ]);
    assert_eq!(
        decode(&doc),
        Err(DecodeError::TypeMismatch {
            path: vec![key("boards"), key("b"), key("quirks"), PathStep::Index(0), key("type")]
        })
    );
    let untyped = one_board(vec![("chip", text("c")), ("quirks", list(vec![map(vec![("pin", text("P1"))])]))]);
    assert_eq!(
        decode(&untyped),
        Err(DecodeError::MissingRequiredField {
            path: vec![key("boards"), key("b"), key("quirks"), PathStep::Index(0)],
            field: "type".to_string()
        })
    );
}

#[test]
fn schema_knows_its_keys() {
    assert_eq!(field_of(Shape::Board, "chip"), Some(Field { shape: Shape::Text, presence: Presence::Required }));
    assert_eq!(field_of(Shape::Board, "flags"), Some(Field { shape: Shape::TextList, presence: Presence::Defaulted }));
    assert_eq!(field_of(Shape::Board, "include"), Some(Field { shape: Shape::TextList, presence: Presence::Optional }));
    assert_eq!(field_of(Shape::Manifest, "boards"), Some(Field { shape: Shape::Boards, presence: Presence::Optional }));
    assert_eq!(field_of(Shape::Manifest, "chip"), None);
    assert_eq!(field_of(Shape::Quirk, "level"), Some(Field { shape: Shape::Level, presence: Presence::Defaulted }));
    assert_eq!(field_of(Shape::Debugger, "uart"), Some(Field { shape: Shape::Uart, presence: Presence::Optional }));
    assert_eq!(field_of(Shape::Leds, "whatever"), Some(Field { shape: Shape::Led, presence: Presence::Required }));
    assert_eq!(field_of(Shape::Text, "chip"), None);
}

#[test]
fn validate_checks_one_shape_at_a_path() {
    let at = vec![key("boards"), PathStep::Index(3)];
    assert_eq!(validate(Shape::Led, &map(vec![("pin", text("P1"))]), &at), None);
    assert_eq!(
        validate(Shape::Led, &map(vec![("color", text("red"))]), &at),
        Some(DecodeError::MissingRequiredField { path: copy_path(&at), field: "pin".to_string() })
    );
    assert_eq!(validate(Shape::Flag, &text("true"), &at), Some(DecodeError::TypeMismatch { path: copy_path(&at) }));
    assert_eq!(validate(Shape::Level, &text("low"), &at), None);
    assert_eq!(validate(Shape::Opaque, &Tree::Null, &at), None);
    assert_eq!(copy_path(&at), at);
}

#[test]
fn first_entry_with_a_key_is_the_field() {
    let doc = map(vec![("a", text("1")), ("b", text("2")), ("a", text("3"))]);
    assert_eq!(get_field(&doc, "a"), Some(&text("1")));
    assert_eq!(get_field(&doc, "b"), Some(&text("2")));
    assert_eq!(get_field(&doc, "c"), None);
    assert_eq!(get_field(&text("a"), "a"), None);
    match &doc {
        Tree::Mapping(entries) => {
            assert!(holds_key(entries, "b"));
            assert!(!holds_key(entries, "c"));
        }
        _ => unreachable!(),
    }
}
