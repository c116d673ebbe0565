use sbd_gen::text::{ends_with, text_eq, text_lt};

#[test]
fn text_eq_compares_every_byte() {
    assert!(text_eq("", ""));
    assert!(text_eq("chip", "chip"));
    assert!(!text_eq("chip", "chips"));
    assert!(!text_eq("chip", "chiq"));
    assert!(text_eq("größe", "größe"));
    assert!(!text_eq("größe", "grösse"));
}

#[test]
fn text_lt_is_the_order_of_bytes() {
    assert!(text_lt("", "a"));
    assert!(!text_lt("a", ""));
    assert!(!text_lt("a", "a"));
    assert!(text_lt("a", "ab"));
    assert!(text_lt("ab", "b"));
    assert!(text_lt("B", "a"));
    assert!(text_lt("z", "ä"));
    assert!(!text_lt("ä", "z"));
    for (a, b) in [("ble", "usb"), ("x", "x"), ("Zed", "alpha"), ("é", "e")] {
        assert_eq!(text_lt(a, b), a < b);
    }
}

#[test]
fn ends_with_compares_the_last_bytes() {
    assert!(ends_with("a.yaml", ".yaml"));
    assert!(ends_with(".yaml", ".yaml"));
    assert!(ends_with("anything", ""));
    assert!(!ends_with("yaml", ".yaml"));
    assert!(!ends_with("a.yaml.bak", ".yaml"));
    assert!(!ends_with("a.yamL", ".yaml"));
    assert!(ends_with("größe", "ße"));
    assert!(!ends_with("", "a"));
}
