//! The schema of a board description, and the check of a document against it.
//!
//! Every object of the schema names the keys that it knows and rejects all
//! others. A check stops at the first fault in the order of the document.

use crate::document::{docs_of, lemma_mapping_view, lemma_sequence_view, pairs_of, Doc, Tree};
use crate::text::text_eq;
use vstd::prelude::*;

verus! {

/// What the schema expects at a place of the document.
#[derive(Debug, Clone, Copy, PartialEq, Eq, Structural)]
pub enum Shape {
    /// Anything: the block belongs to somebody else.
    Opaque,
    /// A string.
    Text,
    /// `true` or `false`.
    Flag,
    /// `high` or `low`.
    Level,
    /// The name of a kind of quirk.
    QuirkTag,
    /// A sequence of strings.
    TextList,
    /// A sequence of quirks.
    Quirks,
    /// A mapping from names to boards.
    Boards,
    /// A mapping from names to LEDs.
    Leds,
    /// A mapping from names to buttons.
    Buttons,
    /// A mapping from names to serial ports.
    Uarts,
    /// The root of a description.
    Manifest,
    /// One board.
    Board,
    /// One LED.
    Led,
    /// One button.
    Button,
    /// One serial port.
    Uart,
    /// A debug probe.
    Debugger,
    /// One quirk.
    Quirk,
}

/// Whether a key has to be there, and what stands for it where it is not.
#[derive(Debug, Clone, Copy, PartialEq, Eq, Structural)]
pub enum Presence {
    /// The key has to be there.
    Required,
    /// The key may be left out, or be given as null: the field is then
    /// absent.
    Optional,
    /// The key may be left out: the field then has its default value.
    Defaulted,
}

/// What the schema says of one key of a mapping.
#[derive(Debug, Clone, Copy, PartialEq, Eq, Structural)]
pub struct Field {
    pub shape: Shape,
    pub presence: Presence,
}

/// A step from a place of the document to a place below it.
pub enum Step {
    Key(Seq<char>),
    Index(int),
}

/// A step from a place of the document to a place below it.
#[derive(Debug, PartialEq, Eq)]
pub enum PathStep {
    /// To the value of a key of a mapping.
    Key(String),
    /// To an item of a sequence, counted from 0.
    Index(usize),
}

impl DeepView for PathStep {
    type V = Step;

    open spec fn deep_view(&self) -> Step {
        match self {
            PathStep::Key(key) => Step::Key(key@),
            PathStep::Index(i) => Step::Index(*i as int),
        }
    }
}

/// The mathematical value of a [`DecodeError`].
pub enum Fault {
    UnknownField { path: Seq<Step>, key: Seq<char> },
    TypeMismatch { path: Seq<Step> },
    MissingRequiredField { path: Seq<Step>, field: Seq<char> },
    DuplicateKey { path: Seq<Step>, key: Seq<char> },
}

/// Why a document is not a board description. `path` leads from the root
/// of the document to the mapping or the value that is at fault.
#[derive(Debug, PartialEq, Eq)]
pub enum DecodeError {
    /// The mapping at `path` holds a key that the schema does not know.
    UnknownField { path: Vec<PathStep>, key: String },
    /// The value at `path` is not of the kind that the schema expects, or
    /// the mapping at `path` has a key that is no string.
    TypeMismatch { path: Vec<PathStep> },
    /// The mapping at `path` lacks a key that has to be there.
    MissingRequiredField { path: Vec<PathStep>, field: String },
    /// The mapping at `path` holds a key twice.
    DuplicateKey { path: Vec<PathStep>, key: String },
}

impl DeepView for DecodeError {
    type V = Fault;

    open spec fn deep_view(&self) -> Fault {
        match self {
            DecodeError::UnknownField { path, key } => Fault::UnknownField {
                path: path.deep_view(),
                key: key@,
            },
            DecodeError::TypeMismatch { path } => Fault::TypeMismatch { path: path.deep_view() },
            DecodeError::MissingRequiredField { path, field } => Fault::MissingRequiredField {
                path: path.deep_view(),
                field: field@,
            },
            DecodeError::DuplicateKey { path, key } => Fault::DuplicateKey {
                path: path.deep_view(),
                key: key@,
            },
        }
    }
}

/// A field that has to be there.
pub open spec fn required(shape: Shape) -> Option<Field> {
    Some(Field { shape, presence: Presence::Required })
}

/// A field that may be absent.
pub open spec fn optional(shape: Shape) -> Option<Field> {
    Some(Field { shape, presence: Presence::Optional })
}

/// A field with a default value.
pub open spec fn defaulted(shape: Shape) -> Option<Field> {
    Some(Field { shape, presence: Presence::Defaulted })
}

/// What the schema says of `key` in a mapping of the given shape; `None`
/// where the mapping does not know the key. A mapping from names takes
/// every key.
pub open spec fn field_for(shape: Shape, key: Seq<char>) -> Option<Field> {
    match shape {
        Shape::Manifest => if key == "description"@ {
            optional(Shape::Text)
        } else if key == "include"@ {
            optional(Shape::TextList)
        } else if key == "boards"@ {
            optional(Shape::Boards)
        } else if key == "ariel"@ {
            optional(Shape::Opaque)
        } else {
            None
        },
        Shape::Board => if key == "chip"@ {
            required(Shape::Text)
        } else if key == "description"@ {
            optional(Shape::Text)
        } else if key == "include"@ {
            optional(Shape::TextList)
        } else if key == "flags"@ {
            defaulted(Shape::TextList)
        } else if key == "quirks"@ {
            defaulted(Shape::Quirks)
        } else if key == "debugger"@ {
            optional(Shape::Debugger)
        } else if key == "leds"@ {
            optional(Shape::Leds)
        } else if key == "buttons"@ {
            optional(Shape::Buttons)
        } else if key == "uarts"@ {
            optional(Shape::Uarts)
        } else if key == "ariel"@ {
            optional(Shape::Opaque)
        } else {
            None
        },
        Shape::Led => if key == "pin"@ {
            required(Shape::Text)
        } else if key == "color"@ {
            optional(Shape::Text)
        } else if key == "inverted"@ {
            optional(Shape::Flag)
        } else {
            None
        },
        Shape::Button => if key == "pin"@ {
            required(Shape::Text)
        } else if key == "active_low"@ {
            optional(Shape::Flag)
        } else {
            None
        },
        Shape::Uart => if key == "rx_pin"@ {
            required(Shape::Text)
        } else if key == "tx_pin"@ {
            required(Shape::Text)
        } else if key == "cts_pin"@ {
            optional(Shape::Text)
        } else if key == "rts_pin"@ {
            optional(Shape::Text)
        } else if key == "possible_peripherals"@ {
            optional(Shape::TextList)
        } else if key == "host_facing"@ {
            optional(Shape::Flag)
        } else {
            None
        },
        Shape::Debugger => if key == "type"@ {
            required(Shape::Text)
        } else if key == "uart"@ {
            optional(Shape::Uart)
        } else {
            None
        },
        Shape::Quirk => if key == "type"@ {
            required(Shape::QuirkTag)
        } else if key == "pin"@ {
            required(Shape::Text)
        } else if key == "level"@ {
            defaulted(Shape::Level)
        } else if key == "description"@ {
            optional(Shape::Text)
        } else {
            None
        },
        Shape::Boards => required(Shape::Board),
        Shape::Leds => required(Shape::Led),
        Shape::Buttons => required(Shape::Button),
        Shape::Uarts => required(Shape::Uart),
        _ => None,
    }
}

/// The keys that a mapping of the given shape has to hold, in the order in
/// which they are looked for.
pub open spec fn required_fields(shape: Shape) -> Seq<Seq<char>> {
    match shape {
        Shape::Board => seq!["chip"@],
        Shape::Led => seq!["pin"@],
        Shape::Button => seq!["pin"@],
        Shape::Uart => seq!["rx_pin"@, "tx_pin"@],
        Shape::Debugger => seq!["type"@],
        Shape::Quirk => seq!["type"@, "pin"@],
        _ => Seq::empty(),
    }
}

/// What the items of a sequence of the given shape are.
pub open spec fn item_shape(shape: Shape) -> Shape {
    match shape {
        Shape::Quirks => Shape::Quirk,
        _ => Shape::Text,
    }
}

/// The key of entry `i` is also the key of an entry before it.
pub open spec fn repeats(entries: Seq<(Doc, Doc)>, i: int) -> bool {
    exists|j: int| 0 <= j < i && entries[j].0 == entries[i].0
}

/// Some entry has the string `name` as its key.
pub open spec fn has_key(entries: Seq<(Doc, Doc)>, name: Seq<char>) -> bool {
    exists|j: int| 0 <= j < entries.len() && entries[j].0 == Doc::Text(name)
}

/// The first fault of `doc` against `shape`, in the order of the document;
/// `None` where `doc` has the shape. `path` is where `doc` stands.
pub open spec fn fault(shape: Shape, doc: Doc, path: Seq<Step>) -> Option<Fault>
    decreases doc, 0int, 0nat,
{
    match shape {
        Shape::Opaque => None,
        Shape::Text => if doc is Text {
            None
        } else {
            Some(Fault::TypeMismatch { path })
        },
        Shape::Flag => if doc is Bool {
            None
        } else {
            Some(Fault::TypeMismatch { path })
        },
        Shape::Level => if doc == Doc::Text("high"@) || doc == Doc::Text("low"@) {
            None
        } else {
            Some(Fault::TypeMismatch { path })
        },
        Shape::QuirkTag => if doc == Doc::Text("set_pin"@) {
            None
        } else {
            Some(Fault::TypeMismatch { path })
        },
        Shape::TextList | Shape::Quirks => match doc {
            Doc::List(items) => items_fault(item_shape(shape), items, path, items.len() as int),
            _ => Some(Fault::TypeMismatch { path }),
        },
        _ => match doc {
            Doc::Dict(entries) => match entries_fault(shape, entries, path, entries.len() as int) {
                Some(f) => Some(f),
                None => missing_fault(
                    required_fields(shape),
                    entries,
                    path,
                    required_fields(shape).len() as int,
                ),
            },
            _ => Some(Fault::TypeMismatch { path }),
        },
    }
}

/// The first fault among the first `n` items of a sequence.
pub open spec fn items_fault(item: Shape, items: Seq<Doc>, path: Seq<Step>, n: int) -> Option<
    Fault,
>
    decreases items, n, 0nat,
{
    if n <= 0 || n > items.len() {
        None
    } else {
        match items_fault(item, items, path, n - 1) {
            Some(f) => Some(f),
            None => fault(item, items[n - 1], path.push(Step::Index(n - 1))),
        }
    }
}

/// The first fault among the first `n` entries of a mapping.
pub open spec fn entries_fault(
    shape: Shape,
    entries: Seq<(Doc, Doc)>,
    path: Seq<Step>,
    n: int,
) -> Option<Fault>
    decreases entries, n, 1nat,
{
    if n <= 0 || n > entries.len() {
        None
    } else {
        match entries_fault(shape, entries, path, n - 1) {
            Some(f) => Some(f),
            None => entry_fault(shape, entries, path, n - 1),
        }
    }
}

/// The fault of entry `i` of a mapping: a key that is no string, a key
/// that the mapping does not know, a key that an earlier entry has, or the
/// first fault of the value. Null has no fault where the key may be absent.
pub open spec fn entry_fault(shape: Shape, entries: Seq<(Doc, Doc)>, path: Seq<Step>, i: int) -> Option<
    Fault,
>
    decreases entries, i, 0nat,
{
    if i < 0 || i >= entries.len() {
        None
    } else {
        match entries[i].0 {
            Doc::Text(key) => match field_for(shape, key) {
                None => Some(Fault::UnknownField { path, key }),
                Some(field) => if repeats(entries, i) {
                    Some(Fault::DuplicateKey { path, key })
                } else if field.presence == Presence::Optional && entries[i].1 is Null {
                    None
                } else {
                    fault(field.shape, entries[i].1, path.push(Step::Key(key)))
                },
            },
            _ => Some(Fault::TypeMismatch { path }),
        }
    }
}

/// The first of the first `n` required keys that no entry has.
pub open spec fn missing_fault(
    names: Seq<Seq<char>>,
    entries: Seq<(Doc, Doc)>,
    path: Seq<Step>,
    n: int,
) -> Option<Fault>
    decreases n,
{
    if n <= 0 || n > names.len() {
        None
    } else {
        match missing_fault(names, entries, path, n - 1) {
            Some(f) => Some(f),
            None => if has_key(entries, names[n - 1]) {
                None
            } else {
                Some(Fault::MissingRequiredField { path, field: names[n - 1] })
            },
        }
    }
}

/// A fault among the first entries of a mapping stays the first fault
/// however many entries follow.
pub proof fn lemma_entries_fault_stops(
    shape: Shape,
    entries: Seq<(Doc, Doc)>,
    path: Seq<Step>,
    n: int,
    m: int,
)
    requires
        0 <= n <= m <= entries.len(),
        entries_fault(shape, entries, path, n) is Some,
    ensures
        entries_fault(shape, entries, path, m) == entries_fault(shape, entries, path, n),
    decreases m - n,
{
    if n < m {
        lemma_entries_fault_stops(shape, entries, path, n, m - 1);
    }
}

/// A fault among the first items of a sequence stays the first fault
/// however many items follow.
pub proof fn lemma_items_fault_stops(
    item: Shape,
    items: Seq<Doc>,
    path: Seq<Step>,
    n: int,
    m: int,
)
    requires
        0 <= n <= m <= items.len(),
        items_fault(item, items, path, n) is Some,
    ensures
        items_fault(item, items, path, m) == items_fault(item, items, path, n),
    decreases m - n,
{
    if n < m {
        lemma_items_fault_stops(item, items, path, n, m - 1);
    }
}

/// Where the first entries of a mapping have no fault, none of them has
/// one.
pub proof fn lemma_entries_checked(
    shape: Shape,
    entries: Seq<(Doc, Doc)>,
    path: Seq<Step>,
    n: int,
    i: int,
)
    requires
        0 <= i < n <= entries.len(),
        entries_fault(shape, entries, path, n) is None,
    ensures
        entry_fault(shape, entries, path, i) is None,
    decreases n,
{
    if i < n - 1 {
        lemma_entries_checked(shape, entries, path, n - 1, i);
    }
}

/// The fault of an entry whose predecessors have none is the first fault
/// of the mapping's entries.
pub proof fn lemma_first_entry_fault(
    shape: Shape,
    entries: Seq<(Doc, Doc)>,
    path: Seq<Step>,
    i: int,
)
    requires
        0 <= i < entries.len(),
        entries_fault(shape, entries, path, i) is None,
        entry_fault(shape, entries, path, i) is Some,
    ensures
        entries_fault(shape, entries, path, entries.len() as int) == entry_fault(
            shape,
            entries,
            path,
            i,
        ),
{
    lemma_entries_fault_stops(shape, entries, path, i + 1, entries.len() as int);
}

/// A mapping with an entry at fault has a fault.
pub proof fn lemma_entry_fault_found(
    shape: Shape,
    entries: Seq<(Doc, Doc)>,
    path: Seq<Step>,
    i: int,
)
    requires
        0 <= i < entries.len(),
        entry_fault(shape, entries, path, i) is Some,
    ensures
        entries_fault(shape, entries, path, entries.len() as int) is Some,
{
    if entries_fault(shape, entries, path, entries.len() as int) is None {
        lemma_entries_checked(shape, entries, path, entries.len() as int, i);
    }
}

/// A required key that is missing stays the first such key however many
/// keys are looked for after it.
pub proof fn lemma_missing_fault_stops(
    names: Seq<Seq<char>>,
    entries: Seq<(Doc, Doc)>,
    path: Seq<Step>,
    n: int,
    m: int,
)
    requires
        0 <= n <= m <= names.len(),
        missing_fault(names, entries, path, n) is Some,
    ensures
        missing_fault(names, entries, path, m) == missing_fault(names, entries, path, n),
    decreases m - n,
{
    if n < m {
        lemma_missing_fault_stops(names, entries, path, n, m - 1);
    }
}

/// A copy of a path.
pub fn copy_path(path: &Vec<PathStep>) -> (r: Vec<PathStep>)
    ensures
        r.deep_view() == path.deep_view(),
{
    let mut out: Vec<PathStep> = Vec::new();
    let mut i: usize = 0;
    while i < path.len()
        invariant
            i <= path.len(),
            out@.len() == i,
            forall|j: int| 0 <= j < i ==> out@[j].deep_view() == path@[j].deep_view(),
        decreases path.len() - i,
    {
        let step = match &path[i] {
            PathStep::Key(key) => PathStep::Key(key.clone()),
            PathStep::Index(n) => PathStep::Index(*n),
        };
        out.push(step);
        i += 1;
    }
    assert(out.deep_view() =~= path.deep_view());
    out
}

/// The path to a place below the end of `path`.
fn extend(path: &Vec<PathStep>, step: PathStep) -> (r: Vec<PathStep>)
    ensures
        r.deep_view() == path.deep_view().push(step.deep_view()),
{
    let mut out = copy_path(path);
    let ghost before = out.deep_view();
    out.push(step);
    assert(out.deep_view() =~= before.push(step.deep_view()));
    out
}

/// What the schema says of `key` in a mapping of the given shape.
pub fn field_of(shape: Shape, key: &str) -> (r: Option<Field>)
    ensures
        r == field_for(shape, key@),
{
    let req = Presence::Required;
    let opt = Presence::Optional;
    let def = Presence::Defaulted;
    match shape {
        Shape::Manifest => if text_eq(key, "description") {
            Some(Field { shape: Shape::Text, presence: opt })
        } else if text_eq(key, "include") {
            Some(Field { shape: Shape::TextList, presence: opt })
        } else if text_eq(key, "boards") {
            Some(Field { shape: Shape::Boards, presence: opt })
        } else if text_eq(key, "ariel") {
            Some(Field { shape: Shape::Opaque, presence: opt })
        } else {
            None
        },
        Shape::Board => if text_eq(key, "chip") {
            Some(Field { shape: Shape::Text, presence: req })
        } else if text_eq(key, "description") {
            Some(Field { shape: Shape::Text, presence: opt })
        } else if text_eq(key, "include") {
            Some(Field { shape: Shape::TextList, presence: opt })
        } else if text_eq(key, "flags") {
            Some(Field { shape: Shape::TextList, presence: def })
        } else if text_eq(key, "quirks") {
            Some(Field { shape: Shape::Quirks, presence: def })
        } else if text_eq(key, "debugger") {
            Some(Field { shape: Shape::Debugger, presence: opt })
        } else if text_eq(key, "leds") {
            Some(Field { shape: Shape::Leds, presence: opt })
        } else if text_eq(key, "buttons") {
            Some(Field { shape: Shape::Buttons, presence: opt })
        } else if text_eq(key, "uarts") {
            Some(Field { shape: Shape::Uarts, presence: opt })
        } else if text_eq(key, "ariel") {
            Some(Field { shape: Shape::Opaque, presence: opt })
        } else {
            None
        },
        Shape::Led => if text_eq(key, "pin") {
            Some(Field { shape: Shape::Text, presence: req })
        } else if text_eq(key, "color") {
            Some(Field { shape: Shape::Text, presence: opt })
        } else if text_eq(key, "inverted") {
            Some(Field { shape: Shape::Flag, presence: opt })
        } else {
            None
        },
        Shape::Button => if text_eq(key, "pin") {
            Some(Field { shape: Shape::Text, presence: req })
        } else if text_eq(key, "active_low") {
            Some(Field { shape: Shape::Flag, presence: opt })
        } else {
            None
        },
        Shape::Uart => if text_eq(key, "rx_pin") {
            Some(Field { shape: Shape::Text, presence: req })
        } else if text_eq(key, "tx_pin") {
            Some(Field { shape: Shape::Text, presence: req })
        } else if text_eq(key, "cts_pin") {
            Some(Field { shape: Shape::Text, presence: opt })
        } else if text_eq(key, "rts_pin") {
            Some(Field { shape: Shape::Text, presence: opt })
        } else if text_eq(key, "possible_peripherals") {
            Some(Field { shape: Shape::TextList, presence: opt })
        } else if text_eq(key, "host_facing") {
            Some(Field { shape: Shape::Flag, presence: opt })
        } else {
            None
        },
        Shape::Debugger => if text_eq(key, "type") {
            Some(Field { shape: Shape::Text, presence: req })
        } else if text_eq(key, "uart") {
            Some(Field { shape: Shape::Uart, presence: opt })
        } else {
            None
        },
        Shape::Quirk => if text_eq(key, "type") {
            Some(Field { shape: Shape::QuirkTag, presence: req })
        } else if text_eq(key, "pin") {
            Some(Field { shape: Shape::Text, presence: req })
        } else if text_eq(key, "level") {
            Some(Field { shape: Shape::Level, presence: def })
        } else if text_eq(key, "description") {
            Some(Field { shape: Shape::Text, presence: opt })
        } else {
            None
        },
        Shape::Boards => Some(Field { shape: Shape::Board, presence: req }),
        Shape::Leds => Some(Field { shape: Shape::Led, presence: req }),
        Shape::Buttons => Some(Field { shape: Shape::Button, presence: req }),
        Shape::Uarts => Some(Field { shape: Shape::Uart, presence: req }),
        _ => None,
    }
}

/// The keys that a mapping of the given shape has to hold.
fn required_names(shape: Shape) -> (r: Vec<&'static str>)
    ensures
        r@.len() == required_fields(shape).len(),
        forall|i: int| 0 <= i < r@.len() ==> r@[i]@ == required_fields(shape)[i],
{
    let mut names: Vec<&'static str> = Vec::new();
    match shape {
        Shape::Board => {
            names.push("chip");
        },
        Shape::Led => {
            names.push("pin");
        },
        Shape::Button => {
            names.push("pin");
        },
        Shape::Uart => {
            names.push("rx_pin");
            names.push("tx_pin");
        },
        Shape::Debugger => {
            names.push("type");
        },
        Shape::Quirk => {
            names.push("type");
            names.push("pin");
        },
        _ => {},
    }
    names
}

/// Whether some entry has the string `name` as its key.
pub fn holds_key(entries: &Vec<(Tree, Tree)>, name: &str) -> (r: bool)
    ensures
        r == has_key(pairs_of(entries@), name@),
{
    let mut i: usize = 0;
    while i < entries.len()
        invariant
            i <= entries.len(),
            forall|j: int| 0 <= j < i ==> pairs_of(entries@)[j].0 != Doc::Text(name@),
        decreases entries.len() - i,
    {
        let found = match &entries[i].0 {
            Tree::Text(key) => text_eq(key.as_str(), name),
            _ => false,
        };
        if found {
            assert(pairs_of(entries@)[i as int].0 == Doc::Text(name@));
            return true;
        }
        i += 1;
    }
    false
}

/// Whether the key of entry `i` is also the key of an entry before it.
fn key_repeats(entries: &Vec<(Tree, Tree)>, i: usize) -> (r: bool)
    requires
        i < entries.len(),
    ensures
        r == repeats(pairs_of(entries@), i as int),
{
    let mut j: usize = 0;
    while j < i
        invariant
            j <= i,
            i < entries.len(),
            forall|k: int| 0 <= k < j ==> pairs_of(entries@)[k].0 != pairs_of(entries@)[i as int].0,
        decreases i - j,
    {
        if entries[j].0.same(&entries[i].0) {
            assert(pairs_of(entries@)[j as int].0 == pairs_of(entries@)[i as int].0);
            return true;
        }
        j += 1;
    }
    false
}

/// The first required key that no entry has.
fn find_missing(shape: Shape, entries: &Vec<(Tree, Tree)>, path: &Vec<PathStep>) -> (r: Option<
    DecodeError,
>)
    ensures
        r.deep_view() == missing_fault(
            required_fields(shape),
            pairs_of(entries@),
            path.deep_view(),
            required_fields(shape).len() as int,
        ),
{
    let names = required_names(shape);
    let mut n: usize = 0;
    while n < names.len()
        invariant
            n <= names.len(),
            names@.len() == required_fields(shape).len(),
            forall|i: int| 0 <= i < names@.len() ==> names@[i]@ == required_fields(shape)[i],
            missing_fault(required_fields(shape), pairs_of(entries@), path.deep_view(), n as int)
                is None,
        decreases names.len() - n,
    {
        if !holds_key(entries, names[n]) {
            let field = names[n].to_owned();
            proof {
                lemma_missing_fault_stops(
                    required_fields(shape),
                    pairs_of(entries@),
                    path.deep_view(),
                    n + 1,
                    names@.len() as int,
                );
            }
            return Some(DecodeError::MissingRequiredField { path: copy_path(path), field });
        }
        n += 1;
    }
    None
}

/// The first fault of `value` against `shape`, in the order of the
/// document; `None` where `value` has the shape. `path` is where `value`
/// stands.
pub fn validate(shape: Shape, value: &Tree, path: &Vec<PathStep>) -> (r: Option<DecodeError>)
    ensures
        r.deep_view() == fault(shape, value@, path.deep_view()),
    decreases value, 0nat,
{
    match shape {
        Shape::Opaque => None,
        Shape::Text => match value {
            Tree::Text(_) => None,
            _ => Some(DecodeError::TypeMismatch { path: copy_path(path) }),
        },
        Shape::Flag => match value {
            Tree::Bool(_) => None,
            _ => Some(DecodeError::TypeMismatch { path: copy_path(path) }),
        },
        Shape::Level => {
            let fits = match value {
                Tree::Text(s) => text_eq(s.as_str(), "high") || text_eq(s.as_str(), "low"),
                _ => false,
            };
            if fits {
                None
            } else {
                Some(DecodeError::TypeMismatch { path: copy_path(path) })
            }
        },
        Shape::QuirkTag => {
            let fits = match value {
                Tree::Text(s) => text_eq(s.as_str(), "set_pin"),
                _ => false,
            };
            if fits {
                None
            } else {
                Some(DecodeError::TypeMismatch { path: copy_path(path) })
            }
        },
        Shape::TextList => match value {
            Tree::Sequence(items) => {
                proof {
                    lemma_sequence_view(*items);
                }
                validate_items(Shape::Text, items, path)
            },
            _ => Some(DecodeError::TypeMismatch { path: copy_path(path) }),
        },
        Shape::Quirks => match value {
            Tree::Sequence(items) => {
                proof {
                    lemma_sequence_view(*items);
                }
                validate_items(Shape::Quirk, items, path)
            },
            _ => Some(DecodeError::TypeMismatch { path: copy_path(path) }),
        },
        _ => match value {
            Tree::Mapping(entries) => {
                proof {
                    lemma_mapping_view(*entries);
                }
                match validate_entries(shape, entries, path) {
                    Some(e) => Some(e),
                    None => find_missing(shape, entries, path),
                }
            },
            _ => Some(DecodeError::TypeMismatch { path: copy_path(path) }),
        },
    }
}

/// The first fault among the items of a sequence.
fn validate_items(item: Shape, items: &Vec<Tree>, path: &Vec<PathStep>) -> (r: Option<DecodeError>)
    ensures
        r.deep_view() == items_fault(
            item,
            docs_of(items@),
            path.deep_view(),
            items@.len() as int,
        ),
    decreases items, 1nat,
{
    let mut i: usize = 0;
    while i < items.len()
        invariant
            i <= items.len(),
            items_fault(item, docs_of(items@), path.deep_view(), i as int) is None,
        decreases items.len() - i,
    {
        let below = extend(path, PathStep::Index(i));
        match validate(item, &items[i], &below) {
            Some(e) => {
                proof {
                    lemma_items_fault_stops(
                        item,
                        docs_of(items@),
                        path.deep_view(),
                        i + 1,
                        items@.len() as int,
                    );
                }
                return Some(e);
            },
            None => {},
        }
        i += 1;
    }
    None
}

/// The first fault among the entries of a mapping.
fn validate_entries(shape: Shape, entries: &Vec<(Tree, Tree)>, path: &Vec<PathStep>) -> (r:
    Option<DecodeError>)
    ensures
        r.deep_view() == entries_fault(
            shape,
            pairs_of(entries@),
            path.deep_view(),
            entries@.len() as int,
        ),
    decreases entries, 1nat,
{
    let mut i: usize = 0;
    while i < entries.len()
        invariant
            i <= entries.len(),
            entries_fault(shape, pairs_of(entries@), path.deep_view(), i as int) is None,
        decreases entries.len() - i,
    {
        let found = validate_entry(shape, entries, path, i);
        match found {
            Some(e) => {
                proof {
                    lemma_entries_fault_stops(
                        shape,
                        pairs_of(entries@),
                        path.deep_view(),
                        i + 1,
                        entries@.len() as int,
                    );
                }
                return Some(e);
            },
            None => {},
        }
        i += 1;
    }
    None
}

/// The fault of entry `i` of a mapping.
fn validate_entry(shape: Shape, entries: &Vec<(Tree, Tree)>, path: &Vec<PathStep>, i: usize) -> (r:
    Option<DecodeError>)
    requires
        i < entries.len(),
    ensures
        r.deep_view() == entry_fault(shape, pairs_of(entries@), path.deep_view(), i as int),
    decreases entries, 0nat,
{
    let value = &entries[i].1;
    match &entries[i].0 {
        Tree::Text(key) => match field_of(shape, key.as_str()) {
            None => Some(DecodeError::UnknownField { path: copy_path(path), key: key.clone() }),
            Some(field) => {
                if key_repeats(entries, i) {
                    return Some(
                        DecodeError::DuplicateKey { path: copy_path(path), key: key.clone() },
                    );
                }
                let absent = match (field.presence, value) {
                    (Presence::Optional, Tree::Null) => true,
                    _ => false,
                };
                if absent {
                    None
                } else {
                    let below = extend(path, PathStep::Key(key.clone()));
                    validate(field.shape, value, &below)
                }
            },
        },
        _ => Some(DecodeError::TypeMismatch { path: copy_path(path) }),
    }
}

} // verus!
