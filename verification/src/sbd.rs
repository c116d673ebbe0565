//! The board manifest: what a set of board descriptions says, in types.

use crate::document::{Doc, Tree};
use crate::text::ascending;
use vstd::prelude::*;

verus! {

/// The level that a pin is driven to.
#[derive(Debug, Clone, Copy, PartialEq, Eq, Hash, Structural)]
pub enum PinLevel {
    High,
    Low,
}

impl Default for PinLevel {
    fn default() -> (r: Self)
        ensures
            r == PinLevel::High,
    {
        PinLevel::High
    }
}

/// A pin that has to be driven to a level before the board is used.
#[derive(Debug, Clone, PartialEq, Eq, Hash)]
pub struct SetPinOp {
    pub description: Option<String>,
    pub pin: String,
    pub level: PinLevel,
}

/// Something that a board needs and that its peripherals do not say.
#[derive(Debug, Clone, PartialEq, Eq, Hash)]
#[non_exhaustive]
pub enum Quirk {
    SetPin(SetPinOp),
}

/// An LED of a board.
#[derive(Debug, Clone, PartialEq, Eq, Hash)]
pub struct Led {
    pub name: String,
    pub pin: String,
    pub color: Option<String>,
    pub inverted: Option<bool>,
}

/// A button of a board.
#[derive(Debug, Clone, PartialEq, Eq, Hash)]
pub struct Button {
    pub name: String,
    pub pin: String,
    pub active_low: Option<bool>,
}

/// A serial port of a board. The port of a debugger has no name.
#[derive(Debug, Clone, PartialEq, Eq, Hash)]
pub struct Uart {
    pub name: Option<String>,
    pub rx_pin: String,
    pub tx_pin: String,
    pub cts_pin: Option<String>,
    pub rts_pin: Option<String>,
    pub possible_peripherals: Option<Vec<String>>,
    pub host_facing: Option<bool>,
}

/// The debug probe of a board, with the serial port that it bridges.
#[derive(Debug, Clone, PartialEq, Eq, Hash)]
pub struct Debugger {
    pub type_: String,
    pub uart: Option<Uart>,
}

/// One board.
///
/// `flags` holds each flag once, in the ascending order of the flags'
/// bytes.
#[derive(Debug, Clone, PartialEq, Eq, Hash)]
pub struct Board {
    pub name: String,
    pub chip: String,
    pub description: Option<String>,
    pub includes: Option<Vec<String>>,
    pub leds: Option<Vec<Led>>,
    pub buttons: Option<Vec<Button>>,
    pub uarts: Option<Vec<Uart>>,
    pub debugger: Option<Debugger>,
    pub flags: Vec<String>,
    pub quirks: Vec<Quirk>,
    pub ariel: Option<Tree>,
}

/// The manifest: everything that the merged descriptions say.
#[derive(Debug, Clone, PartialEq, Eq, Hash)]
pub struct SbdFile {
    pub description: Option<String>,
    pub includes: Option<Vec<String>>,
    pub boards: Option<Vec<Board>>,
    pub ariel: Option<Tree>,
}

pub struct SetPinOpModel {
    pub description: Option<Seq<char>>,
    pub pin: Seq<char>,
    pub level: PinLevel,
}

pub enum QuirkModel {
    SetPin(SetPinOpModel),
}

pub struct LedModel {
    pub name: Seq<char>,
    pub pin: Seq<char>,
    pub color: Option<Seq<char>>,
    pub inverted: Option<bool>,
}

pub struct ButtonModel {
    pub name: Seq<char>,
    pub pin: Seq<char>,
    pub active_low: Option<bool>,
}

pub struct UartModel {
    pub name: Option<Seq<char>>,
    pub rx_pin: Seq<char>,
    pub tx_pin: Seq<char>,
    pub cts_pin: Option<Seq<char>>,
    pub rts_pin: Option<Seq<char>>,
    pub possible_peripherals: Option<Seq<Seq<char>>>,
    pub host_facing: Option<bool>,
}

pub struct DebuggerModel {
    pub type_: Seq<char>,
    pub uart: Option<UartModel>,
}

pub struct BoardModel {
    pub name: Seq<char>,
    pub chip: Seq<char>,
    pub description: Option<Seq<char>>,
    pub includes: Option<Seq<Seq<char>>>,
    pub leds: Option<Seq<LedModel>>,
    pub buttons: Option<Seq<ButtonModel>>,
    pub uarts: Option<Seq<UartModel>>,
    pub debugger: Option<DebuggerModel>,
    pub flags: Set<Seq<char>>,
    pub quirks: Seq<QuirkModel>,
    pub ariel: Option<Doc>,
}

pub struct SbdFileModel {
    pub description: Option<Seq<char>>,
    pub includes: Option<Seq<Seq<char>>>,
    pub boards: Option<Seq<BoardModel>>,
    pub ariel: Option<Doc>,
}

impl DeepView for SetPinOp {
    type V = SetPinOpModel;

    open spec fn deep_view(&self) -> SetPinOpModel {
        SetPinOpModel {
            description: self.description.deep_view(),
            pin: self.pin@,
            level: self.level,
        }
    }
}

impl DeepView for Quirk {
    type V = QuirkModel;

    open spec fn deep_view(&self) -> QuirkModel {
        match self {
            Quirk::SetPin(op) => QuirkModel::SetPin(op.deep_view()),
        }
    }
}

impl DeepView for Led {
    type V = LedModel;

    open spec fn deep_view(&self) -> LedModel {
        LedModel {
            name: self.name@,
            pin: self.pin@,
            color: self.color.deep_view(),
            inverted: self.inverted,
        }
    }
}

impl DeepView for Button {
    type V = ButtonModel;

    open spec fn deep_view(&self) -> ButtonModel {
        ButtonModel { name: self.name@, pin: self.pin@, active_low: self.active_low }
    }
}

impl DeepView for Uart {
    type V = UartModel;

    open spec fn deep_view(&self) -> UartModel {
        UartModel {
            name: self.name.deep_view(),
            rx_pin: self.rx_pin@,
            tx_pin: self.tx_pin@,
            cts_pin: self.cts_pin.deep_view(),
            rts_pin: self.rts_pin.deep_view(),
            possible_peripherals: self.possible_peripherals.deep_view(),
            host_facing: self.host_facing,
        }
    }
}

impl DeepView for Debugger {
    type V = DebuggerModel;

    open spec fn deep_view(&self) -> DebuggerModel {
        DebuggerModel { type_: self.type_@, uart: self.uart.deep_view() }
    }
}

impl DeepView for Board {
    type V = BoardModel;

    open spec fn deep_view(&self) -> BoardModel {
        BoardModel {
            name: self.name@,
            chip: self.chip@,
            description: self.description.deep_view(),
            includes: self.includes.deep_view(),
            leds: self.leds.deep_view(),
            buttons: self.buttons.deep_view(),
            uarts: self.uarts.deep_view(),
            debugger: self.debugger.deep_view(),
            flags: self.flags.deep_view().to_set(),
            quirks: self.quirks.deep_view(),
            ariel: self.ariel.deep_view(),
        }
    }
}

impl DeepView for SbdFile {
    type V = SbdFileModel;

    open spec fn deep_view(&self) -> SbdFileModel {
        SbdFileModel {
            description: self.description.deep_view(),
            includes: self.includes.deep_view(),
            boards: self.boards.deep_view(),
            ariel: self.ariel.deep_view(),
        }
    }
}

/// No text occurs twice in the list.
pub open spec fn distinct(names: Seq<Seq<char>>) -> bool {
    forall|i: int, j: int| 0 <= i < j < names.len() ==> names[i] != names[j]
}

/// The names of a list of LEDs.
pub open spec fn led_names(leds: Option<Seq<LedModel>>) -> Seq<Seq<char>> {
    match leds {
        Some(list) => Seq::new(list.len(), |i: int| list[i].name),
        None => Seq::empty(),
    }
}

/// The names of a list of buttons.
pub open spec fn button_names(buttons: Option<Seq<ButtonModel>>) -> Seq<Seq<char>> {
    match buttons {
        Some(list) => Seq::new(list.len(), |i: int| list[i].name),
        None => Seq::empty(),
    }
}

/// The names of a list of serial ports, a port without a name counting as
/// one with the empty name.
pub open spec fn uart_names(uarts: Option<Seq<UartModel>>) -> Seq<Seq<char>> {
    match uarts {
        Some(list) => Seq::new(
            list.len(),
            |i: int|
                match list[i].name {
                    Some(name) => name,
                    None => Seq::empty(),
                },
        ),
        None => Seq::empty(),
    }
}

/// The names of a list of boards.
pub open spec fn board_names(boards: Option<Seq<BoardModel>>) -> Seq<Seq<char>> {
    match boards {
        Some(list) => Seq::new(list.len(), |i: int| list[i].name),
        None => Seq::empty(),
    }
}

impl BoardModel {
    /// No two LEDs, no two buttons and no two serial ports of the board
    /// have the same name.
    pub open spec fn distinct_names(self) -> bool {
        &&& distinct(led_names(self.leds))
        &&& distinct(button_names(self.buttons))
        &&& distinct(uart_names(self.uarts))
    }
}

impl SbdFileModel {
    /// No two boards have the same name, and within each board no two
    /// peripherals of a kind have the same name.
    pub open spec fn distinct_names(self) -> bool {
        &&& distinct(board_names(self.boards))
        &&& self.boards matches Some(boards) ==> forall|i: int|
            0 <= i < boards.len() ==> (#[trigger] boards[i]).distinct_names()
    }
}

impl Board {
    /// The board holds each flag once and in ascending order, and no two of
    /// its LEDs, of its buttons or of its serial ports have the same name.
    pub open spec fn wf(&self) -> bool {
        &&& ascending(self.flags.deep_view())
        &&& self.deep_view().distinct_names()
    }

    /// Whether the board has at least one LED.
    pub fn has_leds(&self) -> (r: bool)
        ensures
            r == (self.leds matches Some(leds) && leds@.len() > 0),
    {
        if let Some(leds) = &self.leds {
            !leds.is_empty()
        } else {
            false
        }
    }

    /// Whether the board has at least one button.
    pub fn has_buttons(&self) -> (r: bool)
        ensures
            r == (self.buttons matches Some(buttons) && buttons@.len() > 0),
    {
        if let Some(buttons) = &self.buttons {
            !buttons.is_empty()
        } else {
            false
        }
    }
}

impl SbdFile {
    /// No two boards have the same name, and each board is well formed.
    pub open spec fn wf(&self) -> bool {
        &&& self.deep_view().distinct_names()
        &&& self.boards matches Some(boards) ==> forall|i: int|
            0 <= i < boards@.len() ==> ascending((#[trigger] boards@[i]).flags.deep_view())
    }
}

} // verus!
