//! Grid cells: one character together with two opaque style values.

use vstd::prelude::*;

use crate::annot::Annotate;

verus! {

/// An opaque terminal style value. The engine never interprets styles: it
/// only stores them, copies them and compares them for equality. A renderer
/// maps them onto its own colour representation.
#[derive(Clone, Copy, Debug, PartialEq, Eq, Structural)]
pub enum Style {
    /// The terminal's default style.
    Reset,
    /// An indexed palette entry.
    Ansi(u8),
    /// A direct red/green/blue triple.
    Rgb(u8, u8, u8),
}

impl Default for Style {
    /// The default style is `Reset`.
    fn default() -> (r: Self)
        ensures
            r == Style::Reset,
    {
        Style::Reset
    }
}

/// One grid unit: a character plus foreground and background styles.
#[derive(Clone, Copy, Debug, PartialEq, Eq, Structural)]
pub struct Cell {
    /// The character shown in this cell.
    pub ch: char,
    /// The foreground style of this cell.
    pub fg: Style,
    /// The background style of this cell.
    pub bg: Style,
}

/// The cell a bare character maps to: default styles on both grounds.
pub open spec fn cell_of_char(c: char) -> Cell {
    Cell { ch: c, fg: Style::Reset, bg: Style::Reset }
}

impl Cell {
    /// Create a new cell with default styles.
    pub fn new(ch: char) -> (r: Self)
        ensures
            r == cell_of_char(ch),
    {
        Self { ch, fg: Style::Reset, bg: Style::Reset }
    }

    /// Create a new cell with the given foreground style.
    pub fn new_fg(ch: char, fg: Style) -> (r: Self)
        ensures
            r == (Cell { ch, fg, bg: Style::Reset }),
    {
        Self { ch, fg, bg: Style::Reset }
    }

    /// Create a new cell with the given background style.
    pub fn new_bg(ch: char, bg: Style) -> (r: Self)
        ensures
            r == (Cell { ch, fg: Style::Reset, bg }),
    {
        Self { ch, fg: Style::Reset, bg }
    }
}

impl From<char> for Cell {
    fn from(value: char) -> (r: Self)
        ensures
            r == cell_of_char(value),
    {
        Cell::new(value)
    }
}

impl vstd::std_specs::convert::FromSpecImpl<char> for Cell {
    open spec fn obeys_from_spec() -> bool {
        true
    }

    open spec fn from_spec(v: char) -> Self {
        cell_of_char(v)
    }
}

impl Default for Cell {
    /// The default cell: a space with default styles.
    fn default() -> (r: Self)
        ensures
            r == cell_of_char(' '),
    {
        Self { ch: ' ', fg: Style::Reset, bg: Style::Reset }
    }
}

impl Annotate for Cell {
    open spec fn spec_size(&self) -> (u16, u16) {
        (1, 1)
    }

    fn get_size(&self) -> (r: (u16, u16))
        ensures
            r == self.spec_size(),
    {
        (1, 1)
    }
}

} // verus!
