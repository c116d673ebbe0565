//! What strictness guarantees: what holds of every document that has no
//! fault, and which documents are sure to have one.

use crate::decode::{
    board_of, buttons_of, decode_doc, field_doc, leds_of, manifest_of, text_of, uarts_of,
};
use crate::document::Doc;
use crate::merge::{is_first_key, key_position, lemma_key_occurs};
use crate::sbd::{board_names, button_names, distinct, led_names, uart_names, SbdFileModel};
use crate::schema::{
    entries_fault, entry_fault, fault, field_for, has_key, lemma_entries_checked,
    lemma_entry_fault_found, lemma_first_entry_fault, missing_fault, optional, repeats,
    required_fields, Fault, Presence, Shape, Step,
};
use vstd::prelude::*;

verus! {

/// Whether mappings of the shape go from names to things.
pub open spec fn is_named(shape: Shape) -> bool {
    shape == Shape::Boards || shape == Shape::Leds || shape == Shape::Buttons || shape
        == Shape::Uarts
}

/// What a mapping from names holds under each name.
pub open spec fn named_item(shape: Shape) -> Shape {
    match shape {
        Shape::Boards => Shape::Board,
        Shape::Leds => Shape::Led,
        Shape::Buttons => Shape::Button,
        _ => Shape::Uart,
    }
}

/// In a mapping from names without a fault every key is a string, no key
/// occurs twice, and what stands under each key has no fault.
pub proof fn lemma_named_map_checked(shape: Shape, entries: Seq<(Doc, Doc)>, path: Seq<Step>)
    requires
        is_named(shape),
        fault(shape, Doc::Dict(entries), path) is None,
    ensures
        forall|i: int| 0 <= i < entries.len() ==> (#[trigger] entries[i]).0 is Text,
        forall|i: int, j: int| 0 <= i < j < entries.len() ==> entries[i].0 != entries[j].0,
        forall|i: int|
            0 <= i < entries.len() ==> fault(
                named_item(shape),
                (#[trigger] entries[i]).1,
                path.push(Step::Key(text_of(Some(entries[i].0)))),
            ) is None,
{
    assert forall|i: int| 0 <= i < entries.len() implies (#[trigger] entries[i]).0 is Text
        && !repeats(entries, i) && fault(
        named_item(shape),
        entries[i].1,
        path.push(Step::Key(text_of(Some(entries[i].0)))),
    ) is None by {
        lemma_entries_checked(shape, entries, path, entries.len() as int, i);
    }
    assert forall|i: int, j: int| 0 <= i < j < entries.len() implies entries[i].0
        != entries[j].0 by {
        assert(!repeats(entries, j));
    }
}

/// In a mapping without a fault, what stands under a key that the schema
/// knows has no fault either, unless it is a null that stands for an absent
/// field.
pub proof fn lemma_field_checked(
    shape: Shape,
    entries: Seq<(Doc, Doc)>,
    path: Seq<Step>,
    name: Seq<char>,
)
    requires
        fault(shape, Doc::Dict(entries), path) is None,
        !(shape is Opaque),
        field_for(shape, name) is Some,
        field_doc(Doc::Dict(entries), name) is Some,
    ensures
        ({
            let field = field_for(shape, name)->Some_0;
            let value = field_doc(Doc::Dict(entries), name)->Some_0;
            ||| field.presence == Presence::Optional && value is Null
            ||| fault(field.shape, value, path.push(Step::Key(name))) is None
        }),
{
    let key = Doc::Text(name);
    let i = choose|i: int| is_first_key(entries, key, i);
    assert(is_first_key(entries, key, i));
    assert(key_position(entries, key) == Some(i));
    lemma_entries_checked(shape, entries, path, entries.len() as int, i);
    assert(entry_fault(shape, entries, path, i) is None);
}

/// In a mapping without a fault every key that has to be there is there,
/// and what stands under it has no fault. `k` counts the required keys.
pub proof fn lemma_required_field_present(
    shape: Shape,
    entries: Seq<(Doc, Doc)>,
    path: Seq<Step>,
    k: int,
)
    requires
        fault(shape, Doc::Dict(entries), path) is None,
        0 <= k < required_fields(shape).len(),
        field_for(shape, required_fields(shape)[k]) is Some,
        field_for(shape, required_fields(shape)[k])->Some_0.presence == Presence::Required,
    ensures
        field_doc(Doc::Dict(entries), required_fields(shape)[k]) is Some,
        fault(
            field_for(shape, required_fields(shape)[k])->Some_0.shape,
            field_doc(Doc::Dict(entries), required_fields(shape)[k])->Some_0,
            path.push(Step::Key(required_fields(shape)[k])),
        ) is None,
{
    let names = required_fields(shape);
    lemma_none_missing(names, entries, path, names.len() as int, k);
    let j = choose|j: int| 0 <= j < entries.len() && entries[j].0 == Doc::Text(names[k]);
    lemma_key_occurs(entries, Doc::Text(names[k]), j);
    lemma_field_checked(shape, entries, path, names[k]);
}

/// Where none of the first `n` required keys is missing, each of them is
/// the key of some entry.
pub proof fn lemma_none_missing(
    names: Seq<Seq<char>>,
    entries: Seq<(Doc, Doc)>,
    path: Seq<Step>,
    n: int,
    k: int,
)
    requires
        0 <= k < n <= names.len(),
        missing_fault(names, entries, path, n) is None,
    ensures
        has_key(entries, names[k]),
    decreases n,
{
    if k < n - 1 {
        lemma_none_missing(names, entries, path, n - 1, k);
    }
}

/// The names of the LEDs of a mapping without a fault are distinct.
pub proof fn lemma_led_names_distinct(doc: Doc, path: Seq<Step>)
    requires
        doc is Null || fault(Shape::Leds, doc, path) is None,
    ensures
        distinct(led_names(leds_of(Some(doc)))),
{
    if let Doc::Dict(entries) = doc {
        lemma_named_map_checked(Shape::Leds, entries, path);
    }
}

/// The names of the buttons of a mapping without a fault are distinct.
pub proof fn lemma_button_names_distinct(doc: Doc, path: Seq<Step>)
    requires
        doc is Null || fault(Shape::Buttons, doc, path) is None,
    ensures
        distinct(button_names(buttons_of(Some(doc)))),
{
    if let Doc::Dict(entries) = doc {
        lemma_named_map_checked(Shape::Buttons, entries, path);
    }
}

/// The names of the serial ports of a mapping without a fault are
/// distinct.
pub proof fn lemma_uart_names_distinct(doc: Doc, path: Seq<Step>)
    requires
        doc is Null || fault(Shape::Uarts, doc, path) is None,
    ensures
        distinct(uart_names(uarts_of(Some(doc)))),
{
    if let Doc::Dict(entries) = doc {
        lemma_named_map_checked(Shape::Uarts, entries, path);
    }
}

/// The schema knows the keys under which the mappings from names stand.
pub proof fn lemma_named_fields()
    ensures
        field_for(Shape::Manifest, "boards"@) == optional(Shape::Boards),
        field_for(Shape::Board, "leds"@) == optional(Shape::Leds),
        field_for(Shape::Board, "buttons"@) == optional(Shape::Buttons),
        field_for(Shape::Board, "uarts"@) == optional(Shape::Uarts),
{
    reveal_strlit("description");
    reveal_strlit("include");
    reveal_strlit("boards");
    reveal_strlit("chip");
    reveal_strlit("flags");
    reveal_strlit("quirks");
    reveal_strlit("debugger");
    reveal_strlit("leds");
    reveal_strlit("buttons");
    reveal_strlit("uarts");
    assert("description"@.len() == 11 && "include"@.len() == 7 && "boards"@.len() == 6);
    assert("chip"@.len() == 4 && "flags"@.len() == 5 && "quirks"@.len() == 6);
    assert("debugger"@.len() == 8 && "leds"@.len() == 4 && "buttons"@.len() == 7);
    assert("uarts"@.len() == 5);
    assert("chip"@[0] == 'c' && "leds"@[0] == 'l');
    assert("include"@[0] == 'i' && "buttons"@[0] == 'b');
    assert("flags"@[0] == 'f' && "uarts"@[0] == 'u');
}

/// Within a board without a fault no two LEDs, no two buttons and no two
/// serial ports have the same name.
pub proof fn lemma_board_names_distinct(name: Seq<char>, doc: Doc, path: Seq<Step>)
    requires
        fault(Shape::Board, doc, path) is None,
    ensures
        board_of(name, doc).distinct_names(),
{
    lemma_named_fields();
    let entries = doc->Dict_0;
    assert(doc == Doc::Dict(entries));
    match field_doc(doc, "leds"@) {
        Some(leds) => {
            lemma_field_checked(Shape::Board, entries, path, "leds"@);
            lemma_led_names_distinct(leds, path.push(Step::Key("leds"@)));
        },
        None => {},
    }
    match field_doc(doc, "buttons"@) {
        Some(buttons) => {
            lemma_field_checked(Shape::Board, entries, path, "buttons"@);
            lemma_button_names_distinct(buttons, path.push(Step::Key("buttons"@)));
        },
        None => {},
    }
    match field_doc(doc, "uarts"@) {
        Some(uarts) => {
            lemma_field_checked(Shape::Board, entries, path, "uarts"@);
            lemma_uart_names_distinct(uarts, path.push(Step::Key("uarts"@)));
        },
        None => {},
    }
}

/// A manifest that was decoded has as many boards as the `boards` mapping
/// has keys, in the order of the keys, and each board has its key as its
/// name.
pub proof fn lemma_boards_follow_their_keys(doc: Doc, entries: Seq<(Doc, Doc)>)
    requires
        decode_doc(doc) is Ok,
        field_doc(doc, "boards"@) == Some(Doc::Dict(entries)),
    ensures
        decode_doc(doc)->Ok_0.boards is Some,
        decode_doc(doc)->Ok_0.boards->Some_0.len() == entries.len(),
        forall|i: int|
            0 <= i < entries.len() ==> (#[trigger] entries[i]).0 == Doc::Text(
                decode_doc(doc)->Ok_0.boards->Some_0[i].name,
            ),
        forall|i: int, j: int|
            0 <= i < j < entries.len() ==> decode_doc(doc)->Ok_0.boards->Some_0[i].name
                != decode_doc(doc)->Ok_0.boards->Some_0[j].name,
{
    lemma_named_fields();
    let root = doc->Dict_0;
    assert(doc == Doc::Dict(root));
    let path = Seq::<Step>::empty();
    lemma_field_checked(Shape::Manifest, root, path, "boards"@);
    lemma_named_map_checked(Shape::Boards, entries, path.push(Step::Key("boards"@)));
}

/// In a manifest that was decoded no two boards have the same name, and
/// within each board no two peripherals of a kind have the same name.
pub proof fn lemma_decoded_names_distinct(doc: Doc)
    requires
        decode_doc(doc) is Ok,
    ensures
        decode_doc(doc)->Ok_0.distinct_names(),
{
    lemma_named_fields();
    let root = doc->Dict_0;
    assert(doc == Doc::Dict(root));
    let path = Seq::<Step>::empty();
    let manifest = manifest_of(doc);
    match field_doc(doc, "boards"@) {
        Some(Doc::Dict(entries)) => {
            let below = path.push(Step::Key("boards"@));
            lemma_field_checked(Shape::Manifest, root, path, "boards"@);
            lemma_named_map_checked(Shape::Boards, entries, below);
            let boards = manifest.boards->Some_0;
            assert forall|i: int| 0 <= i < boards.len() implies (#[trigger] boards[i]).distinct_names() by {
                let name = text_of(Some(entries[i].0));
                assert(entries[i].0 is Text);
                lemma_board_names_distinct(name, entries[i].1, below.push(Step::Key(name)));
            }
            assert forall|i: int, j: int| 0 <= i < j < boards.len() implies board_names(
                manifest.boards,
            )[i] != board_names(manifest.boards)[j] by {
                assert(entries[i].0 is Text && entries[j].0 is Text);
            }
        },
        _ => {},
    }
}

/// A key that the schema does not know, anywhere in a board, leaves the
/// document without a manifest.
///
/// The board stands under `name` in the mapping `boards`, which stands under
/// the key `boards` of the root; the key is that of entry `i` of the board.
pub proof fn lemma_unknown_board_key_rejected(
    root: Seq<(Doc, Doc)>,
    p: int,
    boards: Seq<(Doc, Doc)>,
    b: int,
    name: Seq<char>,
    board: Seq<(Doc, Doc)>,
    i: int,
    key: Seq<char>,
)
    requires
        0 <= p < root.len(),
        root[p] == (Doc::Text("boards"@), Doc::Dict(boards)),
        0 <= b < boards.len(),
        boards[b] == (Doc::Text(name), Doc::Dict(board)),
        0 <= i < board.len(),
        board[i].0 == Doc::Text(key),
        field_for(Shape::Board, key) is None,
    ensures
        decode_doc(Doc::Dict(root)) is Err,
        ({
            let at_boards = Seq::<Step>::empty().push(Step::Key("boards"@));
            let at_board = at_boards.push(Step::Key(name));
            &&& entries_fault(Shape::Manifest, root, Seq::empty(), p) is None
            &&& !repeats(root, p)
            &&& entries_fault(Shape::Boards, boards, at_boards, b) is None
            &&& !repeats(boards, b)
            &&& entries_fault(Shape::Board, board, at_board, i) is None
        }) ==> decode_doc(Doc::Dict(root)) == Err::<SbdFileModel, Fault>(
            Fault::UnknownField {
                path: Seq::<Step>::empty().push(Step::Key("boards"@)).push(Step::Key(name)),
                key,
            },
        ),
{
    lemma_named_fields();
    let at_root = Seq::<Step>::empty();
    let at_boards = at_root.push(Step::Key("boards"@));
    let at_board = at_boards.push(Step::Key(name));
    let unknown = Fault::UnknownField { path: at_board, key };
    assert(entry_fault(Shape::Board, board, at_board, i) == Some(unknown));
    lemma_entry_fault_found(Shape::Board, board, at_board, i);
    assert(fault(Shape::Board, Doc::Dict(board), at_board) is Some);
    assert(entry_fault(Shape::Boards, boards, at_boards, b) is Some);
    lemma_entry_fault_found(Shape::Boards, boards, at_boards, b);
    assert(fault(Shape::Boards, Doc::Dict(boards), at_boards) is Some);
    assert(entry_fault(Shape::Manifest, root, at_root, p) is Some);
    lemma_entry_fault_found(Shape::Manifest, root, at_root, p);
    if entries_fault(Shape::Manifest, root, at_root, p) is None && !repeats(root, p)
        && entries_fault(Shape::Boards, boards, at_boards, b) is None && !repeats(boards, b)
        && entries_fault(Shape::Board, board, at_board, i) is None {
        lemma_first_entry_fault(Shape::Board, board, at_board, i);
        assert(fault(Shape::Board, Doc::Dict(board), at_board) == Some(unknown));
        assert(entry_fault(Shape::Boards, boards, at_boards, b) == Some(unknown));
        lemma_first_entry_fault(Shape::Boards, boards, at_boards, b);
        assert(fault(Shape::Boards, Doc::Dict(boards), at_boards) == Some(unknown));
        assert(entry_fault(Shape::Manifest, root, at_root, p) == Some(unknown));
        lemma_first_entry_fault(Shape::Manifest, root, at_root, p);
    }
}

} // verus!
