//! Decoding a document into a board manifest.
//!
//! What a document means is stated for every document; a document that has
//! a fault against the schema is rejected with its first fault.

use crate::document::{lemma_mapping_view, lemma_sequence_view, pairs_of, Doc, Tree};
use crate::merge::{is_first_key, key_position, lookup};
use crate::sbd::{
    Board, BoardModel, Button, ButtonModel, Debugger, DebuggerModel, Led, LedModel, PinLevel,
    Quirk, QuirkModel, SbdFile, SbdFileModel, SetPinOp, SetPinOpModel, Uart, UartModel,
};
use crate::schema::{fault, validate, DecodeError, Fault, PathStep, Shape, Step};
use crate::text::{ascending, insert_ascending, text_eq};
use crate::validity::lemma_decoded_names_distinct;
use vstd::prelude::*;

verus! {

/// The value that a mapping gives to the string key `name`, in its first
/// entry with that key; `None` where `doc` is no mapping or lacks the key.
pub open spec fn field_doc(doc: Doc, name: Seq<char>) -> Option<Doc> {
    match doc {
        Doc::Dict(entries) => lookup(entries, Doc::Text(name)),
        _ => None,
    }
}

/// The string that a value is; the empty string for any other value.
pub open spec fn text_of(doc: Option<Doc>) -> Seq<char> {
    match doc {
        Some(Doc::Text(s)) => s,
        _ => Seq::empty(),
    }
}

/// The string that a value is, if it is one.
pub open spec fn opt_text_of(doc: Option<Doc>) -> Option<Seq<char>> {
    match doc {
        Some(Doc::Text(s)) => Some(s),
        _ => None,
    }
}

/// The truth value that a value is, if it is one.
pub open spec fn opt_flag_of(doc: Option<Doc>) -> Option<bool> {
    match doc {
        Some(Doc::Bool(b)) => Some(b),
        _ => None,
    }
}

/// The strings of a sequence, in its order; no strings for any other
/// value.
pub open spec fn texts_of(doc: Option<Doc>) -> Seq<Seq<char>> {
    match doc {
        Some(Doc::List(items)) => Seq::new(items.len(), |i: int| text_of(Some(items[i]))),
        _ => Seq::empty(),
    }
}

/// The strings of a sequence, if the value is one.
pub open spec fn opt_texts_of(doc: Option<Doc>) -> Option<Seq<Seq<char>>> {
    match doc {
        Some(Doc::List(_)) => Some(texts_of(doc)),
        _ => None,
    }
}

/// The level that a value names: low for `low`, high for anything else
/// and where there is no value.
pub open spec fn level_of(doc: Option<Doc>) -> PinLevel {
    if doc == Some(Doc::Text("low"@)) {
        PinLevel::Low
    } else {
        PinLevel::High
    }
}

/// A block that is kept as it stands; null counts as no block.
pub open spec fn opaque_of(doc: Option<Doc>) -> Option<Doc> {
    match doc {
        Some(Doc::Null) => None,
        _ => doc,
    }
}

/// The LED that `doc` describes under the key `name`.
pub open spec fn led_of(name: Seq<char>, doc: Doc) -> LedModel {
    LedModel {
        name,
        pin: text_of(field_doc(doc, "pin"@)),
        color: opt_text_of(field_doc(doc, "color"@)),
        inverted: opt_flag_of(field_doc(doc, "inverted"@)),
    }
}

/// The button that `doc` describes under the key `name`.
pub open spec fn button_of(name: Seq<char>, doc: Doc) -> ButtonModel {
    ButtonModel {
        name,
        pin: text_of(field_doc(doc, "pin"@)),
        active_low: opt_flag_of(field_doc(doc, "active_low"@)),
    }
}

/// The serial port that `doc` describes.
pub open spec fn uart_of(name: Option<Seq<char>>, doc: Doc) -> UartModel {
    UartModel {
        name,
        rx_pin: text_of(field_doc(doc, "rx_pin"@)),
        tx_pin: text_of(field_doc(doc, "tx_pin"@)),
        cts_pin: opt_text_of(field_doc(doc, "cts_pin"@)),
        rts_pin: opt_text_of(field_doc(doc, "rts_pin"@)),
        possible_peripherals: opt_texts_of(field_doc(doc, "possible_peripherals"@)),
        host_facing: opt_flag_of(field_doc(doc, "host_facing"@)),
    }
}

/// The LEDs of a mapping from names, one for each entry and in the order
/// of the entries, each with its key as its name.
pub open spec fn leds_of(doc: Option<Doc>) -> Option<Seq<LedModel>> {
    match doc {
        Some(Doc::Dict(entries)) => Some(
            Seq::new(
                entries.len(),
                |i: int| led_of(text_of(Some(entries[i].0)), entries[i].1),
            ),
        ),
        _ => None,
    }
}

/// The buttons of a mapping from names, one for each entry and in the
/// order of the entries, each with its key as its name.
pub open spec fn buttons_of(doc: Option<Doc>) -> Option<Seq<ButtonModel>> {
    match doc {
        Some(Doc::Dict(entries)) => Some(
            Seq::new(
                entries.len(),
                |i: int| button_of(text_of(Some(entries[i].0)), entries[i].1),
            ),
        ),
        _ => None,
    }
}

/// The serial ports of a mapping from names, one for each entry and in the
/// order of the entries, each with its key as its name.
pub open spec fn uarts_of(doc: Option<Doc>) -> Option<Seq<UartModel>> {
    match doc {
        Some(Doc::Dict(entries)) => Some(
            Seq::new(
                entries.len(),
                |i: int| uart_of(Some(text_of(Some(entries[i].0))), entries[i].1),
            ),
        ),
        _ => None,
    }
}

/// The debug probe that a mapping describes; its serial port has no name.
pub open spec fn debugger_of(doc: Option<Doc>) -> Option<DebuggerModel> {
    match doc {
        Some(Doc::Dict(entries)) => Some(
            DebuggerModel {
                type_: text_of(field_doc(Doc::Dict(entries), "type"@)),
                uart: match field_doc(Doc::Dict(entries), "uart"@) {
                    Some(Doc::Dict(port)) => Some(uart_of(None, Doc::Dict(port))),
                    _ => None,
                },
            },
        ),
        _ => None,
    }
}

/// The quirk that `doc` describes.
pub open spec fn quirk_of(doc: Doc) -> QuirkModel {
    QuirkModel::SetPin(
        SetPinOpModel {
            description: opt_text_of(field_doc(doc, "description"@)),
            pin: text_of(field_doc(doc, "pin"@)),
            level: level_of(field_doc(doc, "level"@)),
        },
    )
}

/// The quirks of a sequence, in its order; none for any other value.
pub open spec fn quirks_of(doc: Option<Doc>) -> Seq<QuirkModel> {
    match doc {
        Some(Doc::List(items)) => Seq::new(items.len(), |i: int| quirk_of(items[i])),
        _ => Seq::empty(),
    }
}

/// The board that `doc` describes under the key `name`.
pub open spec fn board_of(name: Seq<char>, doc: Doc) -> BoardModel {
    BoardModel {
        name,
        chip: text_of(field_doc(doc, "chip"@)),
        description: opt_text_of(field_doc(doc, "description"@)),
        includes: opt_texts_of(field_doc(doc, "include"@)),
        leds: leds_of(field_doc(doc, "leds"@)),
        buttons: buttons_of(field_doc(doc, "buttons"@)),
        uarts: uarts_of(field_doc(doc, "uarts"@)),
        debugger: debugger_of(field_doc(doc, "debugger"@)),
        flags: texts_of(field_doc(doc, "flags"@)).to_set(),
        quirks: quirks_of(field_doc(doc, "quirks"@)),
        ariel: opaque_of(field_doc(doc, "ariel"@)),
    }
}

/// The boards of a mapping from names, one for each entry and in the order
/// of the entries, each with its key as its name.
pub open spec fn boards_of(doc: Option<Doc>) -> Option<Seq<BoardModel>> {
    match doc {
        Some(Doc::Dict(entries)) => Some(
            Seq::new(
                entries.len(),
                |i: int| board_of(text_of(Some(entries[i].0)), entries[i].1),
            ),
        ),
        _ => None,
    }
}

/// The manifest that `doc` describes.
pub open spec fn manifest_of(doc: Doc) -> SbdFileModel {
    SbdFileModel {
        description: opt_text_of(field_doc(doc, "description"@)),
        includes: opt_texts_of(field_doc(doc, "include"@)),
        boards: boards_of(field_doc(doc, "boards"@)),
        ariel: opaque_of(field_doc(doc, "ariel"@)),
    }
}

/// The value that a mapping gives to the string key `name`.
pub fn get_field<'a>(value: &'a Tree, name: &str) -> (r: Option<&'a Tree>)
    ensures
        r.deep_view() == field_doc(value@, name@),
{
    match value {
        Tree::Mapping(entries) => {
            proof {
                lemma_mapping_view(*entries);
            }
            let ghost pairs = pairs_of(entries@);
            let ghost key = Doc::Text(name@);
            let mut i: usize = 0;
            while i < entries.len()
                invariant
                    i <= entries.len(),
                    pairs == pairs_of(entries@),
                    value@ == Doc::Dict(pairs),
                    key == Doc::Text(name@),
                    forall|j: int| 0 <= j < i ==> pairs[j].0 != key,
                decreases entries.len() - i,
            {
                let found = match &entries[i].0 {
                    Tree::Text(k) => text_eq(k.as_str(), name),
                    _ => false,
                };
                if found {
                    proof {
                        assert(is_first_key(pairs, key, i as int));
                        let k = choose|k: int| is_first_key(pairs, key, k);
                        assert(k == i);
                    }
                    return Some(&entries[i].1);
                }
                i += 1;
            }
            assert(key_position(pairs, key) is None);
            None
        },
        _ => None,
    }
}

/// The string that a value is; the empty string for any other value.
fn take_text(v: Option<&Tree>) -> (r: String)
    ensures
        r@ == text_of(v.deep_view()),
{
    match v {
        Some(Tree::Text(s)) => s.clone(),
        _ => String::new(),
    }
}

/// The string that a value is, if it is one.
fn take_opt_text(v: Option<&Tree>) -> (r: Option<String>)
    ensures
        r.deep_view() == opt_text_of(v.deep_view()),
{
    match v {
        Some(Tree::Text(s)) => Some(s.clone()),
        _ => None,
    }
}

/// The truth value that a value is, if it is one.
fn take_opt_flag(v: Option<&Tree>) -> (r: Option<bool>)
    ensures
        r == opt_flag_of(v.deep_view()),
{
    match v {
        Some(Tree::Bool(b)) => Some(*b),
        _ => None,
    }
}

/// The strings of a sequence, in its order.
fn take_texts(v: Option<&Tree>) -> (r: Vec<String>)
    ensures
        r.deep_view() == texts_of(v.deep_view()),
{
    let mut out: Vec<String> = Vec::new();
    match v {
        Some(Tree::Sequence(items)) => {
            proof {
                lemma_sequence_view(*items);
            }
            let mut i: usize = 0;
            while i < items.len()
                invariant
                    i <= items.len(),
                    out@.len() == i,
                    forall|j: int| 0 <= j < i ==> out@[j]@ == text_of(Some(items@[j]@)),
                decreases items.len() - i,
            {
                out.push(take_text(Some(&items[i])));
                i += 1;
            }
            assert(out.deep_view() =~= texts_of(v.deep_view()));
        },
        _ => {
            assert(out.deep_view() =~= texts_of(v.deep_view()));
        },
    }
    out
}

/// The strings of a sequence, if the value is one.
fn take_opt_texts(v: Option<&Tree>) -> (r: Option<Vec<String>>)
    ensures
        r.deep_view() == opt_texts_of(v.deep_view()),
{
    match v {
        Some(Tree::Sequence(_)) => Some(take_texts(v)),
        _ => None,
    }
}

/// The level that a value names; high where it names none.
fn take_level(v: Option<&Tree>) -> (r: PinLevel)
    ensures
        r == level_of(v.deep_view()),
{
    match v {
        Some(Tree::Text(s)) => if text_eq(s.as_str(), "low") {
            PinLevel::Low
        } else {
            PinLevel::High
        },
        _ => PinLevel::High,
    }
}

/// A copy of a block that is kept as it stands; null counts as no block.
fn take_opaque(v: Option<&Tree>) -> (r: Option<Tree>)
    ensures
        r.deep_view() == opaque_of(v.deep_view()),
{
    match v {
        None => None,
        Some(Tree::Null) => None,
        Some(other) => Some(other.duplicate()),
    }
}

/// The strings of a sequence as a set: each once, in ascending order.
fn take_flags(v: Option<&Tree>) -> (r: Vec<String>)
    ensures
        ascending(r.deep_view()),
        r.deep_view().to_set() == texts_of(v.deep_view()).to_set(),
{
    let texts = take_texts(v);
    let ghost all = texts.deep_view();
    let mut out: Vec<String> = Vec::new();
    let mut i: usize = 0;
    assert(out.deep_view().to_set() =~= all.take(0).to_set());
    while i < texts.len()
        invariant
            i <= texts.len(),
            all == texts.deep_view(),
            ascending(out.deep_view()),
            out.deep_view().to_set() == all.take(i as int).to_set(),
        decreases texts.len() - i,
    {
        let flag = texts[i].clone();
        proof {
            let upto = all.take(i + 1);
            let sofar = all.take(i as int);
            assert forall|t: Seq<char>| upto.contains(t) <==> sofar.contains(t) || t
                == flag@ by {
                if upto.contains(t) {
                    let k = choose|k: int| 0 <= k < upto.len() && upto[k] == t;
                    if k < i {
                        assert(sofar[k] == t);
                    }
                }
                if sofar.contains(t) {
                    let k = choose|k: int| 0 <= k < sofar.len() && sofar[k] == t;
                    assert(upto[k] == t);
                }
                if t == flag@ {
                    assert(upto[i as int] == t);
                }
            }
            assert(upto.to_set() =~= sofar.to_set().insert(flag@));
        }
        insert_ascending(&mut out, flag);
        i += 1;
    }
    assert(all.take(texts.len() as int) =~= all);
    out
}

/// The LED that `value` describes under the key `name`.
fn build_led(name: String, value: &Tree) -> (r: Led)
    ensures
        r.deep_view() == led_of(name@, value@),
{
    Led {
        name,
        pin: take_text(get_field(value, "pin")),
        color: take_opt_text(get_field(value, "color")),
        inverted: take_opt_flag(get_field(value, "inverted")),
    }
}

/// The button that `value` describes under the key `name`.
fn build_button(name: String, value: &Tree) -> (r: Button)
    ensures
        r.deep_view() == button_of(name@, value@),
{
    Button {
        name,
        pin: take_text(get_field(value, "pin")),
        active_low: take_opt_flag(get_field(value, "active_low")),
    }
}

/// The serial port that `value` describes.
fn build_uart(name: Option<String>, value: &Tree) -> (r: Uart)
    ensures
        r.deep_view() == uart_of(name.deep_view(), value@),
{
    Uart {
        name,
        rx_pin: take_text(get_field(value, "rx_pin")),
        tx_pin: take_text(get_field(value, "tx_pin")),
        cts_pin: take_opt_text(get_field(value, "cts_pin")),
        rts_pin: take_opt_text(get_field(value, "rts_pin")),
        possible_peripherals: take_opt_texts(get_field(value, "possible_peripherals")),
        host_facing: take_opt_flag(get_field(value, "host_facing")),
    }
}

/// The LEDs of a mapping from names, in the order of its entries.
fn build_leds(v: Option<&Tree>) -> (r: Option<Vec<Led>>)
    ensures
        r.deep_view() == leds_of(v.deep_view()),
{
    match v {
        Some(Tree::Mapping(entries)) => {
            proof {
                lemma_mapping_view(*entries);
            }
            let ghost pairs = pairs_of(entries@);
            let mut out: Vec<Led> = Vec::new();
            let mut i: usize = 0;
            while i < entries.len()
                invariant
                    i <= entries.len(),
                    out@.len() == i,
                    pairs == pairs_of(entries@),
                    forall|j: int|
                        0 <= j < i ==> out@[j].deep_view() == led_of(
                            text_of(Some(pairs[j].0)),
                            pairs[j].1,
                        ),
                decreases entries.len() - i,
            {
                out.push(build_led(take_text(Some(&entries[i].0)), &entries[i].1));
                i += 1;
            }
            assert(out.deep_view() =~= leds_of(Some(Doc::Dict(pairs)))->Some_0);
            Some(out)
        },
        _ => None,
    }
}

/// The buttons of a mapping from names, in the order of its entries.
fn build_buttons(v: Option<&Tree>) -> (r: Option<Vec<Button>>)
    ensures
        r.deep_view() == buttons_of(v.deep_view()),
{
    match v {
        Some(Tree::Mapping(entries)) => {
            proof {
                lemma_mapping_view(*entries);
            }
            let ghost pairs = pairs_of(entries@);
            let mut out: Vec<Button> = Vec::new();
            let mut i: usize = 0;
            while i < entries.len()
                invariant
                    i <= entries.len(),
                    out@.len() == i,
                    pairs == pairs_of(entries@),
                    forall|j: int|
                        0 <= j < i ==> out@[j].deep_view() == button_of(
                            text_of(Some(pairs[j].0)),
                            pairs[j].1,
                        ),
                decreases entries.len() - i,
            {
                out.push(build_button(take_text(Some(&entries[i].0)), &entries[i].1));
                i += 1;
            }
            assert(out.deep_view() =~= buttons_of(Some(Doc::Dict(pairs)))->Some_0);
            Some(out)
        },
        _ => None,
    }
}

/// The serial ports of a mapping from names, in the order of its entries.
fn build_uarts(v: Option<&Tree>) -> (r: Option<Vec<Uart>>)
    ensures
        r.deep_view() == uarts_of(v.deep_view()),
{
    match v {
        Some(Tree::Mapping(entries)) => {
            proof {
                lemma_mapping_view(*entries);
            }
            let ghost pairs = pairs_of(entries@);
            let mut out: Vec<Uart> = Vec::new();
            let mut i: usize = 0;
            while i < entries.len()
                invariant
                    i <= entries.len(),
                    out@.len() == i,
                    pairs == pairs_of(entries@),
                    forall|j: int|
                        0 <= j < i ==> out@[j].deep_view() == uart_of(
                            Some(text_of(Some(pairs[j].0))),
                            pairs[j].1,
                        ),
                decreases entries.len() - i,
            {
                out.push(build_uart(Some(take_text(Some(&entries[i].0))), &entries[i].1));
                i += 1;
            }
            assert(out.deep_view() =~= uarts_of(Some(Doc::Dict(pairs)))->Some_0);
            Some(out)
        },
        _ => None,
    }
}

/// The debug probe that a mapping describes.
fn build_debugger(v: Option<&Tree>) -> (r: Option<Debugger>)
    ensures
        r.deep_view() == debugger_of(v.deep_view()),
{
    match v {
        Some(probe) => match probe {
            Tree::Mapping(entries) => {
                proof {
                    lemma_mapping_view(*entries);
                }
                let uart = match get_field(probe, "uart") {
                    Some(port) => match port {
                        Tree::Mapping(inner) => {
                            proof {
                                lemma_mapping_view(*inner);
                            }
                            Some(build_uart(None, port))
                        },
                        _ => None,
                    },
                    None => None,
                };
                Some(Debugger { type_: take_text(get_field(probe, "type")), uart })
            },
            _ => None,
        },
        None => None,
    }
}

/// The quirk that `value` describes.
fn build_quirk(value: &Tree) -> (r: Quirk)
    ensures
        r.deep_view() == quirk_of(value@),
{
    Quirk::SetPin(
        SetPinOp {
            description: take_opt_text(get_field(value, "description")),
            pin: take_text(get_field(value, "pin")),
            level: take_level(get_field(value, "level")),
        },
    )
}

/// The quirks of a sequence, in its order.
fn build_quirks(v: Option<&Tree>) -> (r: Vec<Quirk>)
    ensures
        r.deep_view() == quirks_of(v.deep_view()),
{
    let mut out: Vec<Quirk> = Vec::new();
    match v {
        Some(Tree::Sequence(items)) => {
            proof {
                lemma_sequence_view(*items);
            }
            let mut i: usize = 0;
            while i < items.len()
                invariant
                    i <= items.len(),
                    out@.len() == i,
                    forall|j: int| 0 <= j < i ==> out@[j].deep_view() == quirk_of(items@[j]@),
                decreases items.len() - i,
            {
                out.push(build_quirk(&items[i]));
                i += 1;
            }
            assert(out.deep_view() =~= quirks_of(v.deep_view()));
        },
        _ => {
            assert(out.deep_view() =~= quirks_of(v.deep_view()));
        },
    }
    out
}

/// The board that `value` describes under the key `name`.
fn build_board(name: String, value: &Tree) -> (r: Board)
    ensures
        r.deep_view() == board_of(name@, value@),
        ascending(r.flags.deep_view()),
{
    Board {
        name,
        chip: take_text(get_field(value, "chip")),
        description: take_opt_text(get_field(value, "description")),
        includes: take_opt_texts(get_field(value, "include")),
        leds: build_leds(get_field(value, "leds")),
        buttons: build_buttons(get_field(value, "buttons")),
        uarts: build_uarts(get_field(value, "uarts")),
        debugger: build_debugger(get_field(value, "debugger")),
        flags: take_flags(get_field(value, "flags")),
        quirks: build_quirks(get_field(value, "quirks")),
        ariel: take_opaque(get_field(value, "ariel")),
    }
}

/// The boards of a mapping from names, in the order of its entries.
fn build_boards(v: Option<&Tree>) -> (r: Option<Vec<Board>>)
    ensures
        r.deep_view() == boards_of(v.deep_view()),
        r matches Some(boards) ==> forall|i: int|
            0 <= i < boards@.len() ==> ascending((#[trigger] boards@[i]).flags.deep_view()),
{
    match v {
        Some(Tree::Mapping(entries)) => {
            proof {
                lemma_mapping_view(*entries);
            }
            let ghost pairs = pairs_of(entries@);
            let mut out: Vec<Board> = Vec::new();
            let mut i: usize = 0;
            while i < entries.len()
                invariant
                    i <= entries.len(),
                    out@.len() == i,
                    pairs == pairs_of(entries@),
                    forall|j: int|
                        0 <= j < i ==> out@[j].deep_view() == board_of(
                            text_of(Some(pairs[j].0)),
                            pairs[j].1,
                        ),
                    forall|j: int| 0 <= j < i ==> ascending((#[trigger] out@[j]).flags.deep_view()),
                decreases entries.len() - i,
            {
                out.push(build_board(take_text(Some(&entries[i].0)), &entries[i].1));
                i += 1;
            }
            assert(out.deep_view() =~= boards_of(Some(Doc::Dict(pairs)))->Some_0);
            Some(out)
        },
        _ => None,
    }
}

/// The manifest that a document describes, or the first fault of the
/// document against the schema.
pub open spec fn decode_doc(doc: Doc) -> Result<SbdFileModel, Fault> {
    match fault(Shape::Manifest, doc, Seq::empty()) {
        Some(f) => Err(f),
        None => Ok(manifest_of(doc)),
    }
}

/// Decodes a merged document into a manifest.
///
/// Fails with the first fault of the document, in the order of the
/// document, and then gives no manifest at all. The boards of the manifest
/// stand in the order of their keys in the document.
pub fn decode(doc: &Tree) -> (r: Result<SbdFile, DecodeError>)
    ensures
        match r {
            Ok(manifest) => decode_doc(doc@) == Ok::<SbdFileModel, Fault>(manifest.deep_view())
                && manifest.wf(),
            Err(e) => decode_doc(doc@) == Err::<SbdFileModel, Fault>(e.deep_view()),
        },
{
    let root: Vec<PathStep> = Vec::new();
    assert(root.deep_view() =~= Seq::<Step>::empty());
    match validate(Shape::Manifest, doc, &root) {
        Some(e) => Err(e),
        None => {
            let manifest = SbdFile {
                description: take_opt_text(get_field(doc, "description")),
                includes: take_opt_texts(get_field(doc, "include")),
                boards: build_boards(get_field(doc, "boards")),
                ariel: take_opaque(get_field(doc, "ariel")),
            };
            proof {
                lemma_decoded_names_distinct(doc@);
            }
            Ok(manifest)
        },
    }
}

} // verus!
